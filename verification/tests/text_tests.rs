use lagerist::decimal::{i128_to_string, parse_micros, u64_to_string};
use lagerist::text::{collapse_hyphens_exec, split_lines, str_starts_with, tokenize};

#[test]
fn tokenize_splits_on_whitespace_runs() {
    let toks = tokenize("  a\tbb   ccc \n d ");
    assert_eq!(toks, vec![
        String::from("a"),
        String::from("bb"),
        String::from("ccc"),
        String::from("d"),
    ]);
    assert_eq!(tokenize("   "), Vec::<String>::new());
    assert_eq!(tokenize(""), Vec::<String>::new());
}

#[test]
fn split_lines_matches_line_semantics() {
    assert_eq!(split_lines("a\nb\n"), vec![String::from("a"), String::from("b")]);
    assert_eq!(split_lines("a\n\nb"), vec![String::from("a"), String::new(), String::from("b")]);
    assert_eq!(split_lines("a\r\nb"), vec![String::from("a"), String::from("b")]);
    assert_eq!(split_lines(""), Vec::<String>::new());
}

#[test]
fn collapse_rewrites_doubled_hyphens_left_to_right() {
    assert_eq!(collapse_hyphens_exec("lv--root"), String::from("lv-root"));
    assert_eq!(collapse_hyphens_exec("a----b"), String::from("a--b"));
    assert_eq!(collapse_hyphens_exec("---"), String::from("--"));
    assert_eq!(collapse_hyphens_exec("plain"), String::from("plain"));
    assert_eq!(collapse_hyphens_exec(""), String::new());
}

#[test]
fn starts_with_checks_the_prefix() {
    assert!(str_starts_with("dm-2", "dm-"));
    assert!(!str_starts_with("dm", "dm-"));
    assert!(!str_starts_with("xdm-2", "dm-"));
}

#[test]
fn micros_parsing_pads_truncates_and_rejects() {
    assert_eq!(parse_micros("0.100000"), Some(100000));
    assert_eq!(parse_micros("0.1"), Some(100000));
    assert_eq!(parse_micros("12"), Some(12000000));
    assert_eq!(parse_micros("12."), Some(12000000));
    assert_eq!(parse_micros(".5"), Some(500000));
    assert_eq!(parse_micros("3.0000019"), Some(3000001));
    assert_eq!(parse_micros(""), None);
    assert_eq!(parse_micros("."), None);
    assert_eq!(parse_micros("1.2.3"), None);
    assert_eq!(parse_micros("-1.0"), None);
    assert_eq!(parse_micros("1e3"), None);
    // the largest representable count of microseconds still parses
    assert_eq!(parse_micros("18446744073709.551615"), Some(u64::MAX));
    assert_eq!(parse_micros("18446744073709.551616"), None);
    assert_eq!(parse_micros("99999999999999999999"), None);
}

#[test]
fn decimal_formatting_round_trips_digits() {
    assert_eq!(u64_to_string(0), String::from("0"));
    assert_eq!(u64_to_string(90210), String::from("90210"));
    assert_eq!(u64_to_string(u64::MAX), String::from("18446744073709551615"));
    assert_eq!(i128_to_string(-42), String::from("-42"));
    assert_eq!(i128_to_string(7), String::from("7"));
    assert_eq!(i128_to_string(0), String::from("0"));
}
