use this_cmd::text::{char_is_space, chars_of, replace, trim};

#[test]
fn replace_agrees_with_std() {
    for (h, p, r) in [
        ("echo {{a}} {{a}}", "{{a}}", "x"),
        ("aaaa", "aa", "b"),
        ("abc", "", "-"),
        ("", "", "-"),
        ("", "x", "y"),
        ("ééé", "é", "e"),
        ("no match", "zz", "y"),
        ("{{a}}", "{{a}}", ""),
    ] {
        assert_eq!(replace(h, p, r), h.replace(p, r), "{:?} {:?} {:?}", h, p, r);
    }
}

#[test]
fn trim_agrees_with_std() {
    for s in ["", "   ", " a ", "\u{3000}x\u{a0}y\u{85}", "\t\n a b \r", "ab"] {
        assert_eq!(trim(s), s.trim());
    }
}

#[test]
fn white_space_agrees_with_std() {
    for c in ['\u{0}', ' ', '\t', '\n', '\u{b}', '\u{c}', '\r', '\u{85}', '\u{a0}', '\u{1680}', '\u{2000}', '\u{200a}', '\u{200b}', '\u{2028}', '\u{2029}', '\u{202f}', '\u{205f}', '\u{3000}', 'a', '\u{feff}'] {
        assert_eq!(char_is_space(c), c.is_whitespace(), "{:?}", c);
    }
    for u in 0u32..0x3100 {
        if let Some(c) = char::from_u32(u) {
            assert_eq!(char_is_space(c), c.is_whitespace(), "{:?}", c);
        }
    }
}

#[test]
fn chars_in_order() {
    assert_eq!(chars_of("aé|"), vec!['a', 'é', '|']);
}
