use jsonpath_lib::selector::utils::{abs_index, to_path_str};

#[test]
fn abs_index_counts_negative_from_the_end() {
    assert_eq!(abs_index(-1, 5), 4);
    assert_eq!(abs_index(-5, 5), 0);
    assert_eq!(abs_index(-7, 5), 0);
    assert_eq!(abs_index(2, 5), 2);
    assert_eq!(abs_index(5, 5), 5);
    assert_eq!(abs_index(9, 5), 5);
    assert_eq!(abs_index(0, 0), 0);
}

#[test]
fn to_path_str_strips_quotes() {
    assert_eq!(to_path_str("abc"), ("abc", None));
    assert_eq!(to_path_str("'abc'"), ("abc", None));
    assert_eq!(to_path_str("\"a b\""), ("a b", None));
    assert_eq!(to_path_str("'a\\'b'"), ("a\\'b", Some("a'b".to_string())));
    assert_eq!(to_path_str("''"), ("", None));
    assert_eq!(to_path_str("'가'"), ("가", None));
}
