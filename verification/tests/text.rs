use minitools::text::{
    chars_of, contains_char, contains_text, ends_with_char, eq_ignore_ascii_case, find_char,
    push_decimal, push_digits, push_padded_left, push_padded_right, push_signed, replace_char,
    rfind_char, same_text, stands_before, starts_with, string_of, strip_prefix,
    to_ascii_lowercase, trim, trim_end, trim_start, white, Class,
};
use minitools::wide::{from_utf16_lossy, from_wide, nul_position, to_wide};

#[test]
fn white_space_is_unicode_white_space() {
    for u in 0..=0x10ffffu32 {
        if let Some(c) = char::from_u32(u) {
            assert_eq!(white(c), c.is_whitespace(), "{u:x}");
        }
    }
}

#[test]
fn ascii_case() {
    for u in 0..0x300u32 {
        let s = char::from_u32(u).unwrap().to_string();
        assert_eq!(to_ascii_lowercase(&s), s.to_ascii_lowercase());
    }
    assert!(eq_ignore_ascii_case("NtFs", "nTfS"));
    assert!(!eq_ignore_ascii_case("Ä", "ä"));
    assert!(!eq_ignore_ascii_case("a", "ab"));
}

#[test]
fn pieces_of_text() {
    assert!(starts_with("äbc", "äb"));
    assert!(!starts_with("a", "ab"));
    assert_eq!(strip_prefix("äbc", "ä"), Some("bc"));
    assert_eq!(strip_prefix("abc", "x"), None);
    assert!(contains_text("hello", "ell"));
    assert!(contains_text("hello", ""));
    assert!(!contains_text("he", "hello"));
    assert!(!contains_text("aab", "abb"));
    assert!(contains_char("日本", '本'));
    assert_eq!(find_char("aéa", 'a'), Some(0));
    assert_eq!(rfind_char("aéa", 'a'), Some(2));
    assert_eq!(find_char("abc", 'x'), None);
    assert_eq!(rfind_char("", 'x'), None);
    assert_eq!(replace_char("a/b/c", '/', '\\'), r"a\b\c");
    assert!(ends_with_char("ab", 'b'));
    assert!(!ends_with_char("", 'b'));
    assert!(same_text("é", "é"));
    assert!(!same_text("e", "é"));
    assert!(!same_text("e", "ee"));
    assert_eq!(string_of(&chars_of("añ")), "añ");
}

#[test]
fn trimming() {
    assert_eq!(trim_end("a \t\r\n", Class::White), "a");
    assert_eq!(trim_start("\u{3000} a ", Class::White), "a ");
    assert_eq!(trim(" \u{85}a b\u{2028} ", Class::White), "a b");
    assert_eq!(trim("  ", Class::White), "");
    assert_eq!(trim_end(r"C:\\", Class::Only('\\')), "C:");
    assert_eq!(trim("\"\"x\"", Class::Only('"')), "x");
}

#[test]
fn texts_are_ordered_as_strings_are() {
    let words = ["", "a", "ab", "b", "B", "é", "日", "😀", "a\u{ffff}", "a😀"];
    for x in words {
        for y in words {
            assert_eq!(stands_before(x, y), x <= y, "{x} {y}");
        }
    }
}

#[test]
fn numbers_and_columns() {
    for n in [0u64, 7, 10, 99, 100, 12345, u64::MAX] {
        let mut s = String::from("x");
        push_decimal(&mut s, n);
        assert_eq!(s, format!("x{n}"));
        let mut h = String::new();
        push_digits(&mut h, n, 16);
        assert_eq!(h, format!("{n:X}"));
    }
    for n in [0i64, -1, 42, i64::MIN, i64::MAX] {
        let mut s = String::new();
        push_signed(&mut s, n);
        assert_eq!(s, n.to_string());
    }
    let mut s = String::new();
    push_padded_right(&mut s, "é", 3);
    push_padded_left(&mut s, "é", 3);
    push_padded_right(&mut s, "long", 3);
    assert_eq!(s, "é    élong");
}

#[test]
fn wide_text_is_utf16() {
    for t in ["", "abc", "日本", "a😀b", "\u{10ffff}\u{e000}\u{d7ff}"] {
        let mut expected: Vec<u16> = t.encode_utf16().collect();
        expected.push(0);
        assert_eq!(to_wide(t), expected);
        assert_eq!(from_wide(&to_wide(t)), t);
    }
    let odd: [&[u16]; 5] = [
        &[0xd800],
        &[0xdc00, 0x41],
        &[0xd83d, 0xd83d, 0xde00],
        &[0xd83d, 0x41, 0xde00],
        &[0xdbff, 0xdfff],
    ];
    for s in odd {
        assert_eq!(from_utf16_lossy(s), String::from_utf16_lossy(s));
    }
    assert_eq!(from_wide(&[0x41, 0, 0x42]), "A");
    assert_eq!(from_wide(&[0x41, 0x42]), "AB");
    assert_eq!(nul_position(&[0x41, 0, 0]), 1);
    assert_eq!(nul_position(&[0x41]), 1);
}
