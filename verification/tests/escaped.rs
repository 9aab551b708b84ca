use lib::utils::Escaped;

#[test]
fn escaped_renders_like_escape_default() {
    for ch in ['a', ' ', '~', '\t', '\r', '\n', '\\', '\'', '"', '\u{7f}', '\u{0}', 'é', '\u{1F600}', '\u{10FFFF}'] {
        assert_eq!(Escaped::escape(ch).to_string(), ch.escape_default().to_string(), "{:?}", ch);
    }
}

#[test]
fn short_escapes_read_back() {
    for ch in ['\t', '\r', '\n', '\\', '\'', '"'] {
        let text: String = Escaped::escape(ch).to_string();
        assert_eq!(Escaped::unescape(&text[1..]), Ok(("", ch)));
    }
    let text: String = Escaped::escape('é').to_string();
    assert_eq!(Escaped::unescape(&text[1..]), Ok(("", 'é')));
}

#[test]
fn code_point_escape_reads_back() {
    for c in ['\u{e9}', '\u{7f}', '\u{2028}', '\u{10ffff}'] {
        let shown: String = Escaped::escape(c).to_string();
        assert!(shown.starts_with('\\'));
        let (rest, read) = Escaped::unescape(&shown[1..]).unwrap();
        assert_eq!(read, c);
        assert_eq!(rest, "");
    }
}

#[test]
fn code_point_escape_with_odd_digit_count_is_not_read_back() {
    let shown: String = Escaped::escape('\u{100}').to_string();
    assert_eq!(shown, "\\u{100}");
    assert!(Escaped::unescape(&shown[1..]).is_err());
}
