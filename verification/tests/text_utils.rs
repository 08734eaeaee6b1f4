use gram_data::text::{char_is_whitespace, chars_of, line_end, trim_range};

#[test]
fn trim_range_matches_str_trim() {
    for s in ["", "   ", "  a b  ", "\u{3000}x\u{85}", "\t\r\n y\u{2009}", "\u{200b}z\u{200b}"] {
        let v = chars_of(s);
        let (a, b) = trim_range(&v, 0, v.len());
        let got: String = v[a..b].iter().collect();
        assert_eq!(got, s.trim());
    }
}

#[test]
fn whitespace_classification_matches_std() {
    let v: Vec<char> = (0u32..=0x10FFFF).filter_map(char::from_u32).collect();
    for (i, c) in v.iter().enumerate() {
        let (a, b) = trim_range(&v, i, i + 1);
        assert_eq!(a == b, c.is_whitespace(), "{:?}", c);
    }
}

#[test]
fn line_end_finds_newline() {
    let v = chars_of("ab\ncd");
    assert_eq!(line_end(&v, 0), 2);
    assert_eq!(line_end(&v, 2), 2);
    assert_eq!(line_end(&v, 3), 5);
    assert_eq!(line_end(&v, 5), 5);
}

#[test]
fn chars_of_keeps_order() {
    assert_eq!(chars_of("aé😀"), vec!['a', 'é', '😀']);
}

#[test]
fn char_is_whitespace_matches_std() {
    for u in 0u32..=0x10FFFF {
        if let Some(c) = char::from_u32(u) {
            assert_eq!(char_is_whitespace(c), c.is_whitespace(), "{:?}", c);
        }
    }
}
