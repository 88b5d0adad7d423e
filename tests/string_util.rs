use search_lambda::strutil::StrUtil;

#[test]
fn test_sub_str() {
    assert_eq!("quick brown fox".sub_str(6, 11), "brown".to_string());
}

#[test]
fn test_extract_middle() {
    assert_eq!("/home/user/123456.avro".extract_middle("/home/user/", ".avro"), "123456");
}

#[test]
fn test_extract_after_last() {
    assert_eq!("/home/user/123456.avro".extract_after_last("/"), "123456.avro");
}

#[test]
fn test_trim_left_slash() {
    assert_eq!("/aaa/bbb/".trim_left_slash(), "aaa/bbb/");
}

#[test]
fn test_trim_right_slash() {
    assert_eq!("/aaa/bbb/".trim_right_slash(), "/aaa/bbb");
    assert_eq!("/aaa/bbb///".trim_right_slash(), "/aaa/bbb");
    assert_eq!("eai3_status_spark_1.2.0/".to_string().as_str().trim_right_slash(), "eai3_status_spark_1.2.0");
}

#[test]
fn trim_left_slash_strips_every_leading_slash() {
    assert_eq!("///a/b".trim_left_slash(), "a/b");
    assert_eq!("///".trim_left_slash(), "");
    assert_eq!("".trim_left_slash(), "");
}

#[test]
fn trim_right_slash_on_only_slashes() {
    assert_eq!("///".trim_right_slash(), "");
    assert_eq!("abc".trim_right_slash(), "abc");
}

#[test]
fn extract_after_last_takes_last_occurrence() {
    assert_eq!("a--b--c".extract_after_last("--"), "c");
    assert_eq!("abc/".extract_after_last("/"), "");
    assert_eq!("abc".extract_after_last(""), "");
}

#[test]
fn sub_str_whole_and_empty() {
    assert_eq!("hello".sub_str(0, 5), "hello");
    assert_eq!("hello".sub_str(2, 2), "");
}
