use gpx_split::classify::TokenKind;
use gpx_split::indent::IndentState;
use gpx_split::printer::{write_other_tags, write_token, Outputs};

fn state(level: i64, last_level: i64, last_was_text: bool) -> IndentState {
    IndentState { level, last_level, last_was_text }
}

#[test]
fn a_pass_begins_at_depth_zero() {
    assert_eq!(IndentState::new(), state(0, 0, true));
}

#[test]
fn a_closing_tag_takes_the_depth_down_before_it_is_written() {
    let mut s = state(2, 1, false);
    assert!(s.before_write(TokenKind::ClosingTag));
    assert_eq!(s, state(1, 2, false));
    s.after_write(TokenKind::ClosingTag);
    assert_eq!(s, state(1, 2, false));
}

#[test]
fn an_opening_tag_takes_the_depth_up_after_it_is_written() {
    let mut s = state(2, 1, false);
    assert!(s.before_write(TokenKind::OpeningTag));
    assert_eq!(s, state(2, 1, false));
    s.after_write(TokenKind::OpeningTag);
    assert_eq!(s, state(3, 2, false));
}

#[test]
fn other_tokens_leave_the_depth() {
    let mut s = state(2, 1, false);
    assert!(s.before_write(TokenKind::SelfClosingTag));
    s.after_write(TokenKind::SelfClosingTag);
    assert_eq!(s, state(2, 1, false));
    assert!(!s.before_write(TokenKind::Text));
    s.after_write(TokenKind::Text);
    assert_eq!(s, state(2, 1, true));
}

#[test]
fn no_line_break_after_text_or_at_an_unchanged_depth() {
    let mut s = state(2, 1, true);
    assert!(!s.before_write(TokenKind::OpeningTag));
    let mut s = state(2, 2, false);
    assert!(!s.before_write(TokenKind::OpeningTag));
    assert!(!s.before_write(TokenKind::SelfClosingTag));
    let mut s = state(2, 3, true);
    assert!(!s.before_write(TokenKind::ClosingTag));
    assert_eq!(s, state(1, 2, true));
}

#[test]
fn a_tag_is_indented_by_two_spaces_for_each_level() {
    let mut out = String::from("x");
    let mut s = state(3, 2, false);
    write_token(&mut out, "<name>", &mut s);
    assert_eq!(out, "x\n      <name>");
    assert_eq!(s, state(4, 3, false));
}

#[test]
fn text_and_the_tag_that_closes_it_stay_on_the_line() {
    let mut out = String::new();
    let mut s = state(2, 1, false);
    write_token(&mut out, "<name>", &mut s);
    write_token(&mut out, "A", &mut s);
    assert_eq!(s, state(3, 2, true));
    write_token(&mut out, "</name>", &mut s);
    assert_eq!(out, "\n    <name>A</name>");
    assert_eq!(s, state(2, 3, false));
}

#[test]
fn below_depth_zero_nothing_is_indented() {
    let mut out = String::new();
    let mut s = state(0, 1, false);
    write_token(&mut out, "</a>", &mut s);
    assert_eq!(out, "\n</a>");
    assert_eq!(s, state(-1, 0, false));
    write_token(&mut out, "</b>", &mut s);
    assert_eq!(out, "\n</a>\n</b>");
    assert_eq!(s, state(-2, -1, false));
    write_token(&mut out, "<c>", &mut s);
    assert_eq!(out, "\n</a>\n</b>\n<c>");
    assert_eq!(s, state(-1, -2, false));
}

#[test]
fn the_first_tags_of_a_document_share_a_line() {
    let mut outs = Outputs::new();
    let mut s = IndentState::new();
    write_other_tags(&mut outs, "<?xml version=\"1.0\"?>", &mut s);
    assert_eq!(s, state(0, 0, false));
    write_other_tags(&mut outs, "<gpx>", &mut s);
    assert_eq!(s, state(1, 0, false));
    write_other_tags(&mut outs, "<metadata>", &mut s);
    assert_eq!(outs.waypoints, "<?xml version=\"1.0\"?><gpx>\n  <metadata>");
    assert_eq!(outs.routes, outs.waypoints);
    assert_eq!(outs.tracks, outs.waypoints);
}

#[test]
fn a_shared_token_goes_to_all_outputs_and_moves_the_depth_once() {
    let mut outs = Outputs {
        waypoints: String::from("w"),
        routes: String::from("r"),
        tracks: String::from("t"),
    };
    let mut s = state(1, 0, false);
    write_other_tags(&mut outs, "<metadata>", &mut s);
    assert_eq!(outs.waypoints, "w\n  <metadata>");
    assert_eq!(outs.routes, "r\n  <metadata>");
    assert_eq!(outs.tracks, "t\n  <metadata>");
    assert_eq!(s, state(2, 1, false));
}

#[test]
fn a_shared_tag_that_spans_lines_is_laid_out_anew() {
    let mut outs = Outputs::new();
    let mut s = IndentState::new();
    write_other_tags(&mut outs, "<gpx\n  version=\"1.1\">", &mut s);
    assert_eq!(outs.waypoints, "<gpx\n    version=\"1.1\"\n>");
    assert_eq!(outs.routes, outs.waypoints);
    assert_eq!(outs.tracks, outs.waypoints);
    assert_eq!(s, state(1, 0, false));
}

#[test]
fn a_self_closing_end_moves_to_a_line_of_its_own() {
    let mut outs = Outputs::new();
    let mut s = state(1, 0, false);
    write_other_tags(&mut outs, "<link\nhref=\"x\"/>", &mut s);
    assert_eq!(outs.tracks, "\n  <link\n    href=\"x\"\n  />");
    assert_eq!(s, state(1, 0, false));
}

#[test]
fn every_line_of_a_token_is_laid_out() {
    let mut outs = Outputs::new();
    let mut s = state(2, 2, true);
    write_other_tags(&mut outs, "a>\nb/>\n\nc\n", &mut s);
    assert_eq!(
        outs.routes,
        "a\n    >b\n    />\n      c\n      \n      "
    );
    assert_eq!(s, state(2, 2, true));
}

#[test]
fn a_closing_tag_that_spans_lines_is_laid_out_at_its_own_depth() {
    let mut outs = Outputs::new();
    let mut s = state(2, 1, false);
    write_other_tags(&mut outs, "</gpx\n>", &mut s);
    assert_eq!(outs.waypoints, "\n  </gpx\n    \n  >");
    assert_eq!(s, state(1, 2, false));
}

#[test]
fn a_token_on_one_line_is_left_as_it_is() {
    for token in ["<gpx version=\"1.1\">", "plain text", "<link href=\"x\"/>", ""] {
        let mut first = Outputs::new();
        write_other_tags(&mut first, token, &mut IndentState::new());
        assert_eq!(first.waypoints, token);
        let mut second = Outputs::new();
        write_other_tags(&mut second, &first.waypoints, &mut IndentState::new());
        assert_eq!(second.waypoints, first.waypoints);
    }
}

#[test]
fn a_token_of_several_lines_grows_each_time() {
    let token = "<gpx\nversion=\"1.1\">";
    let mut first = Outputs::new();
    write_other_tags(&mut first, token, &mut IndentState::new());
    assert_eq!(first.waypoints, "<gpx\n  version=\"1.1\"\n>");
    let mut second = Outputs::new();
    write_other_tags(&mut second, &first.waypoints, &mut IndentState::new());
    assert_eq!(second.waypoints, "<gpx\n    version=\"1.1\"\n  \n>");
}

#[test]
fn a_single_output_keeps_the_lines_of_a_token() {
    let mut out = String::new();
    let mut s = state(1, 0, false);
    write_token(&mut out, "<wpt\n lat=\"1\">", &mut s);
    assert_eq!(out, "\n  <wpt\n lat=\"1\">");
    assert_eq!(s, state(2, 1, false));
}
