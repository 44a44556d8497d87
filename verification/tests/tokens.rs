use gpx_split::dump::token_dump;
use gpx_split::tokenizer::{tokenize, tokenize_text, TokenizeError};

fn owned(list: &[&str]) -> Vec<String> {
    list.iter().map(|s| s.to_string()).collect()
}

#[test]
fn a_document_is_cut_into_tags_and_text() {
    let tokens = tokenize_text("<?xml version=\"1.0\"?>\n<gpx>\n  <name>A b</name>\n</gpx>\n");
    assert_eq!(
        tokens,
        owned(&["<?xml version=\"1.0\"?>", "<gpx>", "<name>", "A b", "</name>", "</gpx>"])
    );
}

#[test]
fn what_stands_before_the_first_tag_is_dropped() {
    assert_eq!(tokenize_text("junk<a>"), owned(&["<a>"]));
    assert_eq!(tokenize_text("\n  <a>"), owned(&["<a>"]));
    assert_eq!(tokenize_text("<a>"), owned(&["<a>"]));
}

#[test]
fn only_the_first_piece_is_dropped() {
    assert_eq!(tokenize_text("x>y<a>"), owned(&["y", "<a>"]));
    assert_eq!(tokenize_text("x> <a>"), owned(&["<a>"]));
}

#[test]
fn text_keeps_its_spaces() {
    assert_eq!(tokenize_text("<a> b c </a>"), owned(&["<a>", " b c ", "</a>"]));
    assert_eq!(tokenize_text("<a>tail"), owned(&["<a>", "tail"]));
    assert_eq!(tokenize_text("<a>tail  "), owned(&["<a>", "tail  "]));
}

#[test]
fn blank_pieces_are_dropped() {
    assert_eq!(tokenize_text("<a> \t\r\n </a>"), owned(&["<a>", "</a>"]));
    assert_eq!(tokenize_text("<a>\u{a0}\u{2003}\u{3000}</a>"), owned(&["<a>", "</a>"]));
    assert_eq!(tokenize_text("<a>\u{200b}</a>"), owned(&["<a>", "\u{200b}", "</a>"]));
}

#[test]
fn a_tag_that_is_not_closed_ends_at_the_next_one() {
    assert_eq!(tokenize_text("<a <b>"), owned(&["<a ", "<b>"]));
    assert_eq!(tokenize_text("<a><<b>"), owned(&["<a>", "<", "<b>"]));
    assert_eq!(tokenize_text("<a>>"), owned(&["<a>", ">"]));
}

#[test]
fn a_bracket_at_the_very_end_begins_nothing() {
    assert_eq!(tokenize_text("<a><"), owned(&["<a>"]));
    assert_eq!(tokenize_text("<a><<"), owned(&["<a>", "<"]));
    assert_eq!(tokenize_text("<"), owned(&[]));
    assert_eq!(tokenize_text("<<"), owned(&["<"]));
}

#[test]
fn an_empty_document_has_no_tokens() {
    assert_eq!(tokenize_text(""), owned(&[]));
    assert_eq!(tokenize(b""), Ok(owned(&[])));
    assert_eq!(tokenize_text("   "), owned(&[]));
    assert_eq!(tokenize_text("no tags"), owned(&[]));
}

#[test]
fn a_tag_may_span_lines() {
    assert_eq!(
        tokenize_text("<gpx\n  version=\"1.1\">\n<wpt/>"),
        owned(&["<gpx\n  version=\"1.1\">", "<wpt/>"])
    );
}

#[test]
fn bytes_are_decoded_as_utf8() {
    let source = "<n>é京💝</n>";
    assert_eq!(tokenize(source.as_bytes()), Ok(owned(&["<n>", "é京💝", "</n>"])));
    let tokens = tokenize(source.as_bytes()).unwrap();
    assert_eq!(tokens[1].chars().count(), 3);
    assert_eq!(tokens[1].len(), 9);
}

#[test]
fn bytes_that_are_not_utf8_are_refused() {
    assert_eq!(tokenize(&[0x3c, 0x61, 0x3e, 0xff]), Err(TokenizeError::InvalidEncoding));
    assert_eq!(tokenize(&[0xc3]), Err(TokenizeError::InvalidEncoding));
    assert_eq!(tokenize(&[0xed, 0xa0, 0x80]), Err(TokenizeError::InvalidEncoding));
    assert_eq!(tokenize(&[0xc0, 0xaf]), Err(TokenizeError::InvalidEncoding));
    assert_eq!(tokenize(&[0x3c, 0x61, 0x3e, 0xc3, 0xa9]), Ok(owned(&["<a>", "é"])));
}

#[test]
fn tokens_have_the_shape_of_tokens() {
    let tokens = tokenize_text("a>b<c d>e f<g/> <h\n>>i< <j");
    assert_eq!(tokens, owned(&["b", "<c d>", "e f", "<g/>", "<h\n>", ">", "i", "< ", "<j"]));
    for t in tokens {
        assert!(!t.is_empty());
        assert!(!t.chars().all(char::is_whitespace));
        assert!(t.chars().skip(1).all(|c| c != '<'));
        assert!(t.chars().rev().skip(1).all(|c| c != '>'));
    }
}

#[test]
fn the_dump_has_one_line_for_each_token() {
    let tokens = tokenize_text("<gpx><wpt><name>A</name></wpt><rte/></gpx>");
    let dump = token_dump(&tokens);
    assert_eq!(dump, "<gpx>\n<wpt>\n<name>\nA\n</name>\n</wpt>\n<rte/>\n</gpx>\n");
    let lines: Vec<&str> = dump.split('\n').collect();
    assert_eq!(lines.len(), tokens.len() + 1);
    assert_eq!(lines[tokens.len()], "");
    for i in 0..tokens.len() {
        assert_eq!(lines[i], tokens[i]);
    }
}

#[test]
fn the_dump_of_nothing_is_empty() {
    assert_eq!(token_dump(&Vec::new()), "");
}

#[test]
fn the_dump_keeps_a_token_as_it_was_cut() {
    let tokens = owned(&["<gpx\n  version=\"1.1\">", " a  b "]);
    assert_eq!(token_dump(&tokens), "<gpx\n  version=\"1.1\">\n a  b \n");
}
