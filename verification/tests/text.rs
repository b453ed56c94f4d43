use near_python::parser_block::split_lines;
use near_python::text::{
    chars_equal, chars_of, contains_char, decimal_string, ends_with, ends_with_char, find_char,
    is_float_literal, matches_at, parse_i64, parse_u128, rfind_char, starts_with,
    starts_with_char, trim,
};

fn cs(text: &str) -> Vec<char> {
    chars_of(text)
}

fn text(v: &[char]) -> String {
    v.iter().collect()
}

#[test]
fn chars_of_gives_the_characters() {
    assert_eq!(cs("aé✓"), vec!['a', 'é', '✓']);
    assert!(cs("").is_empty());
}

#[test]
fn trim_removes_surrounding_white_space() {
    assert_eq!(text(trim(&cs("  x = 1 \t"))), "x = 1");
    assert_eq!(text(trim(&cs("\u{a0}y\u{2003}"))), "y");
    assert_eq!(text(trim(&cs("   "))), "");
    assert_eq!(text(trim(&cs("a b"))), "a b");
}

#[test]
fn trim_twice_is_trim_once() {
    let s = cs("\t  abc  \n");
    let once = trim(&s);
    assert_eq!(trim(once), once);
}

#[test]
fn prefix_and_suffix_tests() {
    assert!(starts_with(&cs("def f():"), &cs("def ")));
    assert!(!starts_with(&cs("de"), &cs("def ")));
    assert!(ends_with(&cs("def f():"), &cs("):")));
    assert!(starts_with_char(&cs("#x"), '#'));
    assert!(!starts_with_char(&cs(""), '#'));
    assert!(ends_with_char(&cs("f(x)"), ')'));
    assert!(matches_at(&cs("a or b"), &cs(" or "), 1));
    assert!(!matches_at(&cs("a or"), &cs(" or "), 1));
    assert!(chars_equal(&cs("try:"), &cs("try:")));
    assert!(!chars_equal(&cs("try"), &cs("try:")));
}

#[test]
fn character_search() {
    assert_eq!(find_char(&cs("a.b.c"), '.'), Some(1));
    assert_eq!(rfind_char(&cs("a.b.c"), '.'), Some(3));
    assert_eq!(find_char(&cs("abc"), '.'), None);
    assert_eq!(rfind_char(&cs(""), '.'), None);
    assert!(contains_char(&cs("x[0]"), '['));
    assert!(!contains_char(&cs("x0"), '['));
}

#[test]
fn i64_numerals() {
    assert_eq!(parse_i64(&cs("42")), Some(42));
    assert_eq!(parse_i64(&cs("-17")), Some(-17));
    assert_eq!(parse_i64(&cs("+8")), Some(8));
    assert_eq!(parse_i64(&cs("007")), Some(7));
    assert_eq!(parse_i64(&cs("9223372036854775807")), Some(i64::MAX));
    assert_eq!(parse_i64(&cs("-9223372036854775808")), Some(i64::MIN));
    assert_eq!(parse_i64(&cs("9223372036854775808")), None);
    assert_eq!(parse_i64(&cs("")), None);
    assert_eq!(parse_i64(&cs("-")), None);
    assert_eq!(parse_i64(&cs("1_000")), None);
    assert_eq!(parse_i64(&cs(" 1")), None);
    assert_eq!(parse_i64(&cs("1.5")), None);
}

#[test]
fn i64_numerals_agree_with_std() {
    for t in ["0", "-0", "+0", "12", "-99999", "123456789012345678901", "abc", "+-1", "--1"] {
        assert_eq!(parse_i64(&cs(t)), t.parse::<i64>().ok(), "{}", t);
    }
}

#[test]
fn u128_numerals() {
    assert_eq!(parse_u128(&cs("300000000000000")), Some(300000000000000));
    assert_eq!(parse_u128(&cs("+5")), Some(5));
    assert_eq!(parse_u128(&cs("-5")), None);
    assert_eq!(
        parse_u128(&cs("340282366920938463463374607431768211455")),
        Some(u128::MAX)
    );
    assert_eq!(parse_u128(&cs("340282366920938463463374607431768211456")), None);
    assert_eq!(parse_u128(&cs("1e3")), None);
    assert_eq!(parse_u128(&cs("")), None);
    assert_eq!(parse_u128(&cs("+")), None);
}

#[test]
fn float_literals_agree_with_std() {
    for t in [
        "3.14", "1e3", "1E-3", ".5", "5.", "-2.5", "+1.0e+10", "inf", "-Infinity", "NaN", "nan",
        "1", "e5", ".", "1e", "1.2.3", "", "+", "infinit", "0x10", " 1.0", "1_0.0", "١",
    ] {
        assert_eq!(is_float_literal(&cs(t)), t.parse::<f64>().is_ok(), "{:?}", t);
    }
}

#[test]
fn decimal_rendering() {
    assert_eq!(decimal_string(0), "0");
    assert_eq!(decimal_string(7), "7");
    assert_eq!(decimal_string(1200), "1200");
    assert_eq!(decimal_string(u128::MAX), u128::MAX.to_string());
}

#[test]
fn lines_follow_str_lines() {
    for t in ["a\nb", "a\r\nb\n", "", "\n", "x\n\ny", "a\r", "\r\n\r\n"] {
        let got: Vec<String> = split_lines(&cs(t)).iter().map(|l| text(l)).collect();
        let want: Vec<String> = t.lines().map(|l| l.to_string()).collect();
        assert_eq!(got, want, "{:?}", t);
    }
}

#[test]
fn white_space_is_what_std_calls_white_space() {
    for v in 0u32..0x11000 {
        if let Some(c) = char::from_u32(v) {
            let one = vec![c];
            assert_eq!(trim(&one).is_empty(), c.is_whitespace(), "{:#x}", v);
        }
    }
}
