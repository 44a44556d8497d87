use gpx_split::classify::{
    classify, is_closing_tag, is_opening_tag, is_self_closing_tag, is_tag, parse_indent_level,
    TokenKind,
};
use gpx_split::text::{ends_with, matches_at, starts_with};

#[test]
fn opening_tags_are_recognised() {
    assert!(is_opening_tag("<gpx>"));
    assert!(is_opening_tag("<gpx version=\"1.1\">"));
    assert!(is_opening_tag("<"));
    assert!(is_opening_tag("<wpt"));
    assert!(!is_opening_tag("</gpx>"));
    assert!(!is_opening_tag("<!-- note -->"));
    assert!(!is_opening_tag("<?xml version=\"1.0\"?>"));
    assert!(!is_opening_tag("<?xml"));
    assert!(!is_opening_tag("<wpt/>"));
    assert!(!is_opening_tag("text"));
    assert!(!is_opening_tag(""));
}

#[test]
fn closing_tags_are_recognised() {
    assert!(is_closing_tag("</gpx>"));
    assert!(is_closing_tag("</"));
    assert!(is_closing_tag("</a/>"));
    assert!(!is_closing_tag("<gpx>"));
    assert!(!is_closing_tag("<"));
    assert!(!is_closing_tag("/>"));
    assert!(!is_closing_tag(""));
}

#[test]
fn self_closing_tags_are_recognised() {
    assert!(is_self_closing_tag("<wpt/>"));
    assert!(is_self_closing_tag("<wpt lat=\"1\" lon=\"2\"/>"));
    assert!(is_self_closing_tag("<?xml version=\"1.0\"?>"));
    assert!(is_self_closing_tag("<?>"));
    assert!(is_self_closing_tag("<?xml/>"));
    assert!(!is_self_closing_tag("</>"));
    assert!(!is_self_closing_tag("</a/>"));
    assert!(!is_self_closing_tag("<!a/>"));
    assert!(!is_self_closing_tag("<?xml"));
    assert!(!is_self_closing_tag("<wpt>"));
    assert!(!is_self_closing_tag("/>"));
    assert!(!is_self_closing_tag(""));
}

#[test]
fn a_slash_alone_between_the_brackets_is_a_closing_tag() {
    assert!(is_closing_tag("</>"));
    assert!(!is_opening_tag("</>"));
    assert!(!is_self_closing_tag("</>"));
    assert_eq!(classify("</>"), TokenKind::ClosingTag);
}

#[test]
fn tags_are_of_one_of_three_kinds() {
    assert!(is_tag("<gpx>"));
    assert!(is_tag("</gpx>"));
    assert!(is_tag("<wpt/>"));
    assert!(is_tag("<?xml?>"));
    assert!(!is_tag("<!-- note -->"));
    assert!(!is_tag("<!DOCTYPE gpx>"));
    assert!(!is_tag("<?xml"));
    assert!(!is_tag("Mount Everest"));
    assert!(!is_tag(" <gpx>"));
    assert!(!is_tag(""));
}

#[test]
fn indent_delta_follows_the_kind() {
    assert_eq!(parse_indent_level("<gpx>"), 1);
    assert_eq!(parse_indent_level("</gpx>"), -1);
    assert_eq!(parse_indent_level("<wpt/>"), 0);
    assert_eq!(parse_indent_level("<?xml version=\"1.0\"?>"), 0);
    assert_eq!(parse_indent_level("<!-- note -->"), 0);
    assert_eq!(parse_indent_level("text"), 0);
    assert_eq!(parse_indent_level(""), 0);
}

#[test]
fn indent_delta_reads_the_token_as_it_stands() {
    assert_eq!(parse_indent_level(" <gpx>"), 0);
    assert_eq!(parse_indent_level("\n</gpx>"), 0);
    assert_eq!(parse_indent_level("<gpx> "), 1);
}

#[test]
fn kinds_are_told_apart() {
    assert_eq!(classify("<gpx>"), TokenKind::OpeningTag);
    assert_eq!(classify("</gpx>"), TokenKind::ClosingTag);
    assert_eq!(classify("<wpt/>"), TokenKind::SelfClosingTag);
    assert_eq!(classify("<?xml?>"), TokenKind::SelfClosingTag);
    assert_eq!(classify("<!-- note -->"), TokenKind::Text);
    assert_eq!(classify("plain"), TokenKind::Text);
    assert_eq!(classify(""), TokenKind::Text);
}

#[test]
fn no_token_is_of_two_kinds() {
    let samples = [
        "", "<", "</", "<>", "</>", "/>", "<a>", "</a>", "<a/>", "<?a?>", "<?a/>", "<?a", "<!a>",
        "<!a/>", "</a/>", "a", " <a>", "<a b=\"c\">", "<é>", "京",
    ];
    for s in samples {
        let opening = is_opening_tag(s);
        let closing = is_closing_tag(s);
        let self_closing = is_self_closing_tag(s);
        let count = opening as u8 + closing as u8 + self_closing as u8;
        assert!(count <= 1, "{:?}", s);
        assert_eq!(is_tag(s), count == 1, "{:?}", s);
        assert_eq!(parse_indent_level(s) == 1, opening, "{:?}", s);
        assert_eq!(parse_indent_level(s) == -1, closing, "{:?}", s);
        assert_eq!(parse_indent_level(s) == 0, !opening && !closing, "{:?}", s);
    }
}

#[test]
fn prefixes_and_suffixes_are_counted_in_characters() {
    assert!(starts_with("<gpx>", "<"));
    assert!(starts_with("<gpx>", "<gpx>"));
    assert!(starts_with("<gpx>", ""));
    assert!(!starts_with("<gpx>", "<gpx> "));
    assert!(!starts_with("", "<"));
    assert!(starts_with("é<", "é"));
    assert!(ends_with("<wpt/>", "/>"));
    assert!(ends_with("<wpt/>", ""));
    assert!(!ends_with(">", "/>"));
    assert!(ends_with("京/>", "/>"));
    assert!(ends_with("/>京", "京"));
    assert!(matches_at("<é京>", 2, "京>"));
    assert!(matches_at("<é京>", 4, ""));
    assert!(!matches_at("<é京>", 5, ""));
    assert!(!matches_at("<é京>", 3, "京"));
    assert!(!matches_at("<é京>", 3, ">>"));
}
