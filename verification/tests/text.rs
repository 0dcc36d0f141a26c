use factory::text::{
    basename, decimal_string, join, signed_decimal_string, strip_prefix, truncate_ellipsis,
};

#[test]
fn decimal_of_small_and_large_numbers() {
    assert_eq!(decimal_string(0), "0");
    assert_eq!(decimal_string(7), "7");
    assert_eq!(decimal_string(10), "10");
    assert_eq!(decimal_string(409), "409");
    assert_eq!(decimal_string(u64::MAX), "18446744073709551615");
}

#[test]
fn signed_decimal_has_a_minus_sign() {
    assert_eq!(signed_decimal_string(0), "0");
    assert_eq!(signed_decimal_string(42), "42");
    assert_eq!(signed_decimal_string(-1), "-1");
    assert_eq!(signed_decimal_string(-120), "-120");
    assert_eq!(signed_decimal_string(i64::MAX), "9223372036854775807");
    assert_eq!(signed_decimal_string(i64::MIN), "-9223372036854775808");
}

#[test]
fn join_puts_the_separator_between_the_parts() {
    assert_eq!(join(&Vec::new(), ", "), "");
    assert_eq!(join(&vec![String::from("a")], ", "), "a");
    assert_eq!(
        join(&vec![String::from("a"), String::from("b"), String::from("c")], ", "),
        "a, b, c"
    );
    assert_eq!(join(&vec![String::new(), String::new()], "-"), "-");
}

#[test]
fn short_text_is_not_truncated() {
    assert_eq!(truncate_ellipsis(5, "abc"), "abc");
    assert_eq!(truncate_ellipsis(3, "abc"), "abc");
    assert_eq!(truncate_ellipsis(1, ""), "");
}

#[test]
fn long_text_ends_with_an_ellipsis() {
    assert_eq!(truncate_ellipsis(3, "abcd"), "ab\u{2026}");
    assert_eq!(truncate_ellipsis(1, "abcd"), "\u{2026}");
    assert_eq!(truncate_ellipsis(5, "hello world"), "hell\u{2026}");
    assert_eq!(truncate_ellipsis(5, "hello world").chars().count(), 5);
}

#[test]
fn basename_is_what_follows_the_last_slash() {
    assert_eq!(basename("/usr/bin/cat"), "cat");
    assert_eq!(basename("cat"), "cat");
    assert_eq!(basename("./build.sh"), "build.sh");
    assert_eq!(basename("dir/"), "");
    assert_eq!(basename(""), "");
    assert_eq!(basename("/"), "");
}

#[test]
fn strip_prefix_takes_the_prefix_off() {
    assert_eq!(strip_prefix("step_", "step_build"), Some(String::from("build")));
    assert_eq!(strip_prefix("step_", "step_"), Some(String::new()));
    assert_eq!(strip_prefix("step_", "step_a_b"), Some(String::from("a_b")));
    assert_eq!(strip_prefix("step_", "init"), None);
    assert_eq!(strip_prefix("step_", "step"), None);
    assert_eq!(strip_prefix("", "x"), Some(String::from("x")));
}
