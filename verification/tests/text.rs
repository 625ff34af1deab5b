use leaf::util::text::{decimal_string, pad_right, parse_number, path_join, repeat, same_text};
use leaf::util::{deserialize_number_from_string, ensure_dir, StringOrInt};
use leaf::error::LErrorClass;

#[test]
fn repeat_writes_the_unit_n_times() {
    assert_eq!(repeat(" |", 0), "");
    assert_eq!(repeat(" |", 3), " | | |");
    assert_eq!(repeat("", 5), "");
}

#[test]
fn pad_right_fills_up_to_the_width() {
    assert_eq!(pad_right("ab", ".", 5), "ab...");
    assert_eq!(pad_right("abcde", ".", 5), "abcde");
    assert_eq!(pad_right("abcdefg", ".", 5), "abcdefg");
    assert_eq!(pad_right("äö", ".", 4), "äö..");
}

#[test]
fn decimal_string_writes_numbers() {
    assert_eq!(decimal_string(0), "0");
    assert_eq!(decimal_string(7), "7");
    assert_eq!(decimal_string(10), "10");
    assert_eq!(decimal_string(404), "404");
    assert_eq!(decimal_string(u64::MAX), "18446744073709551615");
}

#[test]
fn parse_number_reads_unsigned_decimals() {
    assert_eq!(parse_number("0"), Some(0));
    assert_eq!(parse_number("42"), Some(42));
    assert_eq!(parse_number("+42"), Some(42));
    assert_eq!(parse_number("007"), Some(7));
    assert_eq!(parse_number("18446744073709551615"), Some(u64::MAX));
}

#[test]
fn parse_number_refuses_what_is_no_number() {
    assert_eq!(parse_number(""), None);
    assert_eq!(parse_number("+"), None);
    assert_eq!(parse_number("-1"), None);
    assert_eq!(parse_number("12a"), None);
    assert_eq!(parse_number(" 12"), None);
    assert_eq!(parse_number("++1"), None);
    assert_eq!(parse_number("18446744073709551616"), None);
    assert_eq!(parse_number("99999999999999999999999"), None);
}

#[test]
fn parse_number_agrees_with_the_standard_parser() {
    for text in ["", "1", "+1", "-", "+", "1+", "000", "18446744073709551615", "18446744073709551616", "１２"] {
        assert_eq!(parse_number(text), text.parse::<u64>().ok(), "{}", text);
    }
}

#[test]
fn path_join_follows_the_rules_of_paths() {
    assert_eq!(path_join("/", "etc"), "/etc");
    assert_eq!(path_join("/etc", "leaf"), "/etc/leaf");
    assert_eq!(path_join("/etc/", "leaf"), "/etc/leaf");
    assert_eq!(path_join("/etc", "/abs"), "/abs");
    assert_eq!(path_join("", "rel"), "rel");
    assert_eq!(path_join("a", ""), "a/");
}

#[test]
fn path_join_agrees_with_the_standard_paths() {
    for (base, component) in [("/", "etc"), ("/a", "b"), ("/a/", "b"), ("/a", "/b"), ("", "b"), ("a", "b/c")] {
        let expected = std::path::Path::new(base).join(component);
        assert_eq!(path_join(base, component), expected.to_string_lossy());
    }
}

#[test]
fn same_text_compares_characters() {
    assert!(same_text("abc", "abc"));
    assert!(!same_text("abc", "abd"));
    assert!(!same_text("abc", "ab"));
    assert!(same_text("", ""));
}

#[test]
fn number_from_text_or_number() {
    assert_eq!(deserialize_number_from_string(&StringOrInt::Number(9)).unwrap(), 9);
    assert_eq!(deserialize_number_from_string(&StringOrInt::String("17".to_string())).unwrap(), 17);
    let e = deserialize_number_from_string(&StringOrInt::String("x1".to_string())).unwrap_err();
    assert_eq!(e.class, LErrorClass::JSON);
    assert_eq!(e.messages, vec!["Invalid number: x1".to_string()]);
}

#[test]
fn ensure_dir_asks_for_missing_directories_only() {
    assert_eq!(ensure_dir("/var/cache/leaf", true), None);
    assert_eq!(ensure_dir("/var/cache/leaf", false), Some("/var/cache/leaf".to_string()));
}
