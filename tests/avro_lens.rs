use search_lambda::avro_lens::{extract, Value};

fn s(x: &str) -> String {
    x.to_string()
}

fn msg_row(id: i64, name: &str) -> Value {
    Value::Record(vec![
        (s("version"), Value::Union(1, Box::new(Value::String(s("1.0"))))),
        (
            s("msg"),
            Value::Union(
                1,
                Box::new(Value::Record(vec![
                    (s("msgId"), Value::Long(id)),
                    (s("msgName"), Value::Union(1, Box::new(Value::String(s(name))))),
                ])),
            ),
        ),
    ])
}

#[test]
fn extract_follows_nested_path() {
    let row = msg_row(7, "seven");
    assert_eq!(extract(&row, &[s("msg"), s("msgId")]), Some(&Value::Long(7)));
    assert_eq!(extract(&row, &[s("msg"), s("msgName")]), Some(&Value::String(s("seven"))));
    assert_eq!(extract(&row, &[s("version")]), Some(&Value::String(s("1.0"))));
}

#[test]
fn extract_over_rows_collects_ids() {
    let rows = vec![msg_row(1, "a"), msg_row(2, "b"), msg_row(3, "c")];
    let path = [s("msg"), s("msgId")];
    let found: Vec<&Value> = rows.iter().filter_map(|r| extract(r, &path)).collect();
    assert_eq!(found, vec![&Value::Long(1), &Value::Long(2), &Value::Long(3)]);
}

#[test]
fn extract_null_union_short_circuits() {
    let row = Value::Record(vec![(s("msg"), Value::Union(0, Box::new(Value::Null)))]);
    assert_eq!(extract(&row, &[s("msg"), s("msgId")]), None);
    assert_eq!(extract(&row, &[s("msg")]), None);
}

#[test]
fn extract_missing_field_is_absent() {
    let row = msg_row(1, "a");
    assert_eq!(extract(&row, &[s("nope")]), None);
    assert_eq!(extract(&row, &[s("msg"), s("nope")]), None);
}

#[test]
fn extract_from_non_record_is_absent() {
    assert_eq!(extract(&Value::Long(3), &[s("a")]), None);
    let row = msg_row(1, "a");
    assert_eq!(extract(&row, &[s("msg"), s("msgId"), s("deeper")]), None);
}

#[test]
fn extract_first_field_of_a_name_wins() {
    let row = Value::Record(vec![(s("a"), Value::Int(1)), (s("a"), Value::Int(2))]);
    assert_eq!(extract(&row, &[s("a")]), Some(&Value::Int(1)));
}

#[test]
fn extract_empty_path_is_root() {
    let row = Value::Int(5);
    assert_eq!(extract(&row, &[]), Some(&Value::Int(5)));
}
