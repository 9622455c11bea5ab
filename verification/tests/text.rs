use lino_transformer::text::{
    decimal_string, insert_name, parse_i64, parse_u64, sorted_contains, sorted_position, str_eq, str_lt,
};

#[test]
fn parse_u64_follows_the_standard_parser() {
    for text in ["0", "7", "+12", "007", "18446744073709551615", "18446744073709551616", "", "+", "-1", "1a", " 1", "٣"] {
        assert_eq!(parse_u64(text), text.parse::<u64>().ok(), "{:?}", text);
    }
}

#[test]
fn parse_i64_follows_the_standard_parser() {
    for text in [
        "0",
        "-0",
        "-5",
        "+5",
        "9223372036854775807",
        "9223372036854775808",
        "-9223372036854775808",
        "-9223372036854775809",
        "-",
        "--1",
        "x",
    ] {
        assert_eq!(parse_i64(text), text.parse::<i64>().ok(), "{:?}", text);
    }
}

#[test]
fn decimal_string_writes_digits() {
    assert_eq!(decimal_string(0), "0");
    assert_eq!(decimal_string(42), "42");
    assert_eq!(decimal_string(u64::MAX), u64::MAX.to_string());
}

#[test]
fn string_comparisons_are_by_character() {
    assert!(str_eq("café", "café"));
    assert!(!str_eq("a", "ab"));
    assert!(str_lt("a", "ab"));
    assert!(str_lt("ab", "b"));
    assert!(!str_lt("b", "ab"));
    assert!(!str_lt("same", "same"));
    assert_eq!(str_lt("$x", "$y"), "$x" < "$y");
}

#[test]
fn insert_name_keeps_names_sorted_and_unique() {
    let mut names: Vec<String> = Vec::new();
    for name in ["$y", "$a", "$y", "$m", "$a"] {
        insert_name(&mut names, name.to_string());
    }
    assert_eq!(names, vec!["$a".to_string(), "$m".to_string(), "$y".to_string()]);
}

#[test]
fn sorted_names_are_searched_by_position() {
    let names: Vec<String> = ["b", "d", "f", "h"].iter().map(|s| s.to_string()).collect();
    assert_eq!(sorted_position(&names, "a"), 0);
    assert_eq!(sorted_position(&names, "b"), 0);
    assert_eq!(sorted_position(&names, "c"), 1);
    assert_eq!(sorted_position(&names, "h"), 3);
    assert_eq!(sorted_position(&names, "z"), 4);
    assert!(sorted_contains(&names, "f"));
    assert!(!sorted_contains(&names, "e"));
    assert!(!sorted_contains(&Vec::new(), "e"));
}
