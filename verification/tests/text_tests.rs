use tmemo::date::Date;
use tmemo::rand::SplitMix64;
use tmemo::text::{
    contains_str, convert_from_singleline, convert_to_singleline, i64_to_string,
    is_float_text_str, lex_le_str, parse_bool, parse_i32, parse_i64,
};

#[test]
fn singleline_escaping_round_trips() {
    let cases = [
        "plain",
        "with\nnewline",
        "with\ttab",
        "literal \\n pair",
        "literal \\t pair",
        "mixed \\n and \n and \t and \\t",
        "",
    ];
    for c in cases {
        let enc = convert_to_singleline(c.to_string());
        assert!(!enc.contains('\n'));
        assert!(!enc.contains('\t'));
        let dec = convert_from_singleline(enc);
        assert_eq!(dec, c);
    }
    assert_eq!(convert_to_singleline("a\\nb".to_string()), "a[\\]nb");
    assert_eq!(convert_to_singleline("a\nb".to_string()), "a\\nb");
}

#[test]
fn integer_text_round_trips() {
    for n in [0i64, 1, -1, 42, -37, i64::MAX, i64::MIN, 1000000007] {
        let t = i64_to_string(n);
        assert_eq!(parse_i64(&t), Some(n));
    }
    assert_eq!(parse_i64("9223372036854775808"), None);
    assert_eq!(parse_i64("-9223372036854775809"), None);
    assert_eq!(parse_i64(""), None);
    assert_eq!(parse_i64("+"), None);
    assert_eq!(parse_i64("12a"), None);
    assert_eq!(parse_i64("+0012"), Some(12));
    assert_eq!(parse_i32("2147483648"), None);
    assert_eq!(parse_i32("-2147483648"), Some(i32::MIN));
}

#[test]
fn bool_and_float_texts() {
    assert_eq!(parse_bool("true"), Some(true));
    assert_eq!(parse_bool("false"), Some(false));
    assert_eq!(parse_bool("True"), None);
    for ok in ["1", "1.5", ".5", "1.", "-3.25", "+4", "1e5", "2.5E-3", "inf", "-Infinity", "NaN"] {
        assert!(is_float_text_str(ok), "{} should be accepted", ok);
        assert!(ok.parse::<f64>().is_ok(), "{} should parse", ok);
    }
    for bad in ["", ".", "1..2", "1e", "e5", "abc", "4.1.2", "1 "] {
        assert!(!is_float_text_str(bad), "{} should be rejected", bad);
        assert!(bad.parse::<f64>().is_err(), "{} should not parse", bad);
    }
}

#[test]
fn lexicographic_order_matches_str_order() {
    let words = ["", "a", "ab", "abc", "b", "ba", "z"];
    for x in words {
        for y in words {
            assert_eq!(lex_le_str(x, y), x <= y, "{} vs {}", x, y);
        }
    }
}

#[test]
fn substring_search() {
    assert!(contains_str("hello world", "lo wo"));
    assert!(!contains_str("hello", "world"));
    assert!(contains_str("abc", ""));
}

#[test]
fn splitmix_is_deterministic() {
    let mut a = SplitMix64::from_seed(42);
    let mut b = SplitMix64::from_seed(42);
    let mut c = SplitMix64::from_seed(43);
    let xs: Vec<u64> = (0..8).map(|_| a.next_rand()).collect();
    let ys: Vec<u64> = (0..8).map(|_| b.next_rand()).collect();
    let zs: Vec<u64> = (0..8).map(|_| c.next_rand()).collect();
    assert_eq!(xs, ys);
    assert_ne!(xs, zs);
}

#[test]
fn calendar_day_numbers() {
    let d = Date::from_ymd_opt(2024, 1, 1).unwrap();
    assert_eq!(d.day, 738885);
    let o = Date::from_yo_opt(2024, 1).unwrap();
    assert_eq!(o.day, d.day);
    assert!(Date::from_ymd_opt(2023, 2, 29).is_none());
    assert!(Date::from_yo_opt(2023, 366).is_none());
    let leap = Date::from_ymd_opt(2024, 3, 1).unwrap();
    assert_eq!(leap.day - d.day, 60);
    assert_eq!(d.checked_add_days(5).unwrap().day, 738890);
    assert!(Date { day: i32::MAX }.checked_add_days(1).is_none());
    assert!(Date { day: 10 }.is_after(&Date { day: 10 }));
    assert!(!Date { day: 9 }.is_after(&Date { day: 10 }));
}
