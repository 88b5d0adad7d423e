use search_lambda::http_router::{find_at_prefix, is_find_at_route, remove_all_of, split_on};

#[test]
fn route_detection() {
    assert!(is_find_at_route("/find-at/a/b"));
    assert!(!is_find_at_route("/find/a"));
    assert!(!is_find_at_route("/find-at"));
}

#[test]
fn prefix_from_request_path() {
    assert_eq!(find_at_prefix("base", "/find-at/statuses/x=1"), "base/statuses/x=1");
}

#[test]
fn remove_all_occurrences() {
    assert_eq!(remove_all_of("aXbXXc", "X"), "abc");
    assert_eq!(remove_all_of("aaa", "aa"), "a");
    assert_eq!(remove_all_of("", "x"), "");
}

#[test]
fn split_column_and_values() {
    assert_eq!(split_on("msg.msgId", '.'), vec!["msg".to_string(), "msgId".to_string()]);
    assert_eq!(split_on("1,2,3", ','), vec!["1".to_string(), "2".to_string(), "3".to_string()]);
    assert_eq!(split_on("", ','), vec!["".to_string()]);
    assert_eq!(split_on("a,,b,", ','), vec!["a".to_string(), "".to_string(), "b".to_string(), "".to_string()]);
    assert_eq!(split_on(" 1, 2", ','), vec![" 1".to_string(), " 2".to_string()]);
}
