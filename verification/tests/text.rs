use luhnoxide::luhn::is_ascii_digit;
use luhnoxide::text::{
    chars_of, contains, is_white, push_all, push_decimal, push_str, replace, same_text, starts_at,
    string_of, strip_separators, trim,
};

fn v(s: &str) -> Vec<char> {
    s.chars().collect()
}

fn s(v: Vec<char>) -> String {
    v.into_iter().collect()
}

#[test]
fn strings_and_characters_convert_both_ways() {
    for text in ["", "a", "4532 0151", "naïve ☃ 𝄞", "tab\there\n"] {
        assert_eq!(chars_of(text), v(text));
        assert_eq!(string_of(&v(text)), text);
    }
}

#[test]
fn texts_compare_by_their_characters() {
    assert!(same_text("", ""));
    assert!(same_text("high", "high"));
    assert!(!same_text("high", "High"));
    assert!(!same_text("high", "hig"));
    assert!(!same_text("hig", "high"));
    assert!(!same_text("é", "e"));
}

#[test]
fn only_spaces_and_dashes_are_separators() {
    assert_eq!(s(strip_separators(&v("4532-0151 1283--0366"))), "4532015112830366");
    assert_eq!(s(strip_separators(&v(" - "))), "");
    assert_eq!(s(strip_separators(&v("12\t34_56.78"))), "12\t34_56.78");
    assert_eq!(s(strip_separators(&v(""))), "");
}

#[test]
fn white_space_is_what_the_standard_library_says() {
    for code in 0..=0x10FFFFu32 {
        if let Some(c) = char::from_u32(code) {
            assert_eq!(is_white(c), c.is_whitespace(), "U+{:04X}", code);
        }
    }
}

#[test]
fn digits_are_what_the_standard_library_says() {
    for code in 0..=0x10FFFFu32 {
        if let Some(c) = char::from_u32(code) {
            assert_eq!(is_ascii_digit(c), c.to_digit(10).is_some(), "U+{:04X}", code);
        }
    }
}

#[test]
fn trim_agrees_with_the_standard_library() {
    for text in [
        "",
        " ",
        "  \t\n",
        "a",
        " a",
        "a ",
        "  a b  ",
        "\u{3000}wide\u{00A0}",
        "\u{2028}x\u{2029}",
        "\r\nline\r\n",
        " \u{200B} ",
        "\u{0085}\u{1680}x y\u{205F}\u{202F}",
    ] {
        assert_eq!(s(trim(&v(text))), text.trim(), "{:?}", text);
    }
}

#[test]
fn decimal_agrees_with_the_standard_library() {
    for n in [0u64, 1, 9, 10, 11, 99, 100, 101, 12345, 1234567890, u32::MAX as u64, u64::MAX - 1, u64::MAX] {
        let mut out = v("n=");
        push_decimal(&mut out, n);
        assert_eq!(s(out), format!("n={}", n));
    }
}

#[test]
fn pushing_keeps_what_was_there() {
    let mut out = v("ab");
    push_str(&mut out, "cd");
    push_all(&mut out, &v("ef"));
    push_str(&mut out, "");
    push_all(&mut out, &Vec::new());
    assert_eq!(s(out), "abcdef");
}

#[test]
fn occurrence_agrees_with_the_standard_library() {
    let cases = [
        ("", ""),
        ("abc", ""),
        ("", "a"),
        ("abc", "abc"),
        ("abc", "abcd"),
        ("xxabcxx", "abc"),
        ("ababab", "bab"),
        ("aaaa", "aa"),
        ("aab", "ab"),
        ("abc", "c"),
        ("abc", "d"),
        ("4532 0151 1283 0366", "0151 1283"),
    ];
    for (hay, needle) in cases {
        assert_eq!(contains(&v(hay), &v(needle)), hay.contains(needle), "{:?} {:?}", hay, needle);
    }
}

#[test]
fn start_positions() {
    assert!(starts_at(&v("abcabc"), &v("abc"), 0));
    assert!(starts_at(&v("abcabc"), &v("abc"), 3));
    assert!(!starts_at(&v("abcabc"), &v("abc"), 1));
    assert!(!starts_at(&v("abcabc"), &v("abc"), 4));
    assert!(!starts_at(&v("abcabc"), &v("abc"), 6));
    assert!(!starts_at(&v("abcabc"), &v("abc"), 7));
    assert!(starts_at(&v("abc"), &v(""), 3));
    assert!(!starts_at(&v("abc"), &v(""), 4));
    assert!(!starts_at(&v("abc"), &v("abcd"), usize::MAX));
}

#[test]
fn replacement_agrees_with_the_standard_library() {
    let cases = [
        ("", "", "x"),
        ("ab", "", "x"),
        ("ab", "", ""),
        ("", "a", "x"),
        ("abc", "abc", "x"),
        ("abc", "abcd", "x"),
        ("xxabcxxabc", "abc", "-"),
        ("aaaa", "aa", "b"),
        ("aaa", "aa", "b"),
        ("ababab", "bab", "X"),
        ("aab", "ab", "ab"),
        ("abc", "b", ""),
        ("abc", "b", "bbb"),
        ("a 4532015112830366 b", "4532015112830366", "453201XXXXXX0366"),
    ];
    for (hay, needle, with) in cases {
        assert_eq!(
            s(replace(&v(hay), &v(needle), &v(with))),
            hay.replace(needle, with),
            "{:?} {:?} {:?}",
            hay,
            needle,
            with
        );
    }
}
