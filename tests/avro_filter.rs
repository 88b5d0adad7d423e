use search_lambda::avro_filter::{check_value_eq, filter_rows, is_decimal_of, row_matches_exec, select_rows};
use search_lambda::avro_lens::Value;

fn s(x: &str) -> String {
    x.to_string()
}

fn msg_row(id: i64, name: &str) -> Value {
    Value::Record(vec![(
        s("msg"),
        Value::Record(vec![(s("msgId"), Value::Long(id)), (s("msgName"), Value::String(s(name)))]),
    )])
}

fn vals(xs: &[&str]) -> Vec<String> {
    xs.iter().map(|x| x.to_string()).collect()
}

#[test]
fn filter_selects_msg_id_two() {
    let rows = vec![msg_row(1, "a"), msg_row(2, "b"), msg_row(3, "c")];
    let out = filter_rows(rows, &[s("msg"), s("msgId")], &vals(&["2"]));
    assert_eq!(out, vec![msg_row(2, "b")]);
}

#[test]
fn filter_with_every_value_keeps_all_rows_in_order() {
    let rows = vec![msg_row(3, "c"), msg_row(1, "a"), msg_row(2, "b")];
    let out = filter_rows(rows, &[s("msg"), s("msgId")], &vals(&["1", "2", "3"]));
    assert_eq!(out, vec![msg_row(3, "c"), msg_row(1, "a"), msg_row(2, "b")]);
}

#[test]
fn filter_twice_changes_nothing() {
    let rows = vec![msg_row(1, "a"), msg_row(2, "b"), msg_row(3, "c"), msg_row(2, "d")];
    let path = [s("msg"), s("msgId")];
    let values = vals(&["2", "3"]);
    let once = filter_rows(rows, &path, &values);
    let twice = filter_rows(once, &path, &values);
    assert_eq!(twice, vec![msg_row(2, "b"), msg_row(3, "c"), msg_row(2, "d")]);
}

#[test]
fn filter_keeps_order_across_files() {
    let path = [s("msg"), s("msgName")];
    let values = vals(&["x"]);
    let first = filter_rows(vec![msg_row(1, "x"), msg_row(2, "y"), msg_row(3, "x")], &path, &values);
    let second = filter_rows(vec![msg_row(4, "x"), msg_row(5, "z")], &path, &values);
    let mut all = first;
    all.extend(second);
    let ids: Vec<Value> = all;
    assert_eq!(ids, vec![msg_row(1, "x"), msg_row(3, "x"), msg_row(4, "x")]);
}

#[test]
fn select_rows_gives_positions() {
    let rows = vec![msg_row(1, "a"), msg_row(2, "b"), msg_row(1, "c")];
    assert_eq!(select_rows(&rows, &[s("msg"), s("msgId")], &vals(&["1"])), vec![0, 2]);
    assert_eq!(select_rows(&rows, &[s("msg"), s("nope")], &vals(&["1"])), Vec::<usize>::new());
}

#[test]
fn decimal_text_exact() {
    assert!(is_decimal_of("0", 0));
    assert!(is_decimal_of("42", 42));
    assert!(is_decimal_of("-42", -42));
    assert!(is_decimal_of("-9223372036854775808", i64::MIN));
    assert!(is_decimal_of("9223372036854775807", i64::MAX));
    assert!(!is_decimal_of("042", 42));
    assert!(!is_decimal_of("+42", 42));
    assert!(!is_decimal_of("4", 42));
    assert!(!is_decimal_of("", 0));
    assert!(!is_decimal_of("-", 0));
    assert!(!is_decimal_of("-0", 0));
}

#[test]
fn check_value_eq_by_kind() {
    let v = vals(&["5", "true", "abc"]);
    assert!(check_value_eq(&Value::Long(5), &v));
    assert!(check_value_eq(&Value::Int(5), &v));
    assert!(check_value_eq(&Value::Boolean(true), &v));
    assert!(!check_value_eq(&Value::Boolean(false), &v));
    assert!(check_value_eq(&Value::String(s("abc")), &v));
    assert!(!check_value_eq(&Value::String(s("ab")), &v));
    assert!(!check_value_eq(&Value::Null, &v));
    assert!(!check_value_eq(&Value::Other, &v));
    assert!(!check_value_eq(&Value::Record(vec![]), &v));
    assert!(!check_value_eq(&Value::Long(5), &vals(&[" 5", "5.0"])));
}

#[test]
fn null_optional_never_matches() {
    let row = Value::Record(vec![(s("msg"), Value::Union(0, Box::new(Value::Null)))]);
    assert!(!row_matches_exec(&row, &[s("msg")], &vals(&["null", ""])));
}
