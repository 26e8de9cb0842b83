use i18n_core::text::{chars_of, find, is_whitespace, str_eq, str_lt, string_of, string_of_range, trim};

#[test]
fn whitespace_is_that_of_unicode() {
    for code in 0u32..=0x10FFFF {
        if let Some(c) = char::from_u32(code) {
            assert_eq!(is_whitespace(c), c.is_whitespace(), "U+{:04X}", code);
        }
    }
}

#[test]
fn trim_agrees_with_std() {
    let samples = [
        "", " ", "a", " a", "a ", "  a b  ", "\t\n x \r\n", "\u{3000}x\u{2003}", "   ", "a\u{a0}",
        "\u{85}\u{1680}héllo\u{2028}\u{2029}\u{202f}\u{205f}",
    ];
    for s in samples {
        assert_eq!(trim(s), s.trim(), "text {:?}", s);
    }
}

#[test]
fn order_agrees_with_std() {
    let samples = [
        "", "a", "b", "ab", "aa", "B", "é", "e", "zh", "zh-Hant", "en", "es", "fr", "de", "日本",
        "\u{10FFFF}", "\u{FFFF}", "~", "a\u{0}",
    ];
    for a in samples {
        for b in samples {
            assert_eq!(str_lt(a, b), a < b, "{:?} < {:?}", a, b);
            assert_eq!(str_eq(a, b), a == b, "{:?} == {:?}", a, b);
        }
    }
}

#[test]
fn characters_round_trip() {
    let v = chars_of("héllo");
    assert_eq!(v, vec!['h', 'é', 'l', 'l', 'o']);
    assert_eq!(string_of(&v), "héllo");
    assert_eq!(string_of_range(&v, 1, 3), "él");
    assert_eq!(string_of_range(&v, 2, 2), "");
}

#[test]
fn find_gives_first_occurrence() {
    let hay = chars_of("a=>b=>c");
    assert_eq!(find(&hay, &chars_of("=>")), Some(1));
    assert_eq!(find(&hay, &chars_of("c")), Some(6));
    assert_eq!(find(&hay, &chars_of("x")), None);
    assert_eq!(find(&hay, &chars_of("")), Some(0));
    assert_eq!(find(&chars_of(""), &chars_of("")), Some(0));
    assert_eq!(find(&chars_of("ab"), &chars_of("abc")), None);
}
