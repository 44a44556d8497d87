//! The stream router: which output a token belongs to, and the single pass
//! that writes every token where it belongs.
//!
//! A tag named `wpt`, `rte` or `trk` begins a capture: from there on every
//! token goes to that category's output alone, up to and including the first
//! token that closes the category. A token outside any capture goes to all
//! three outputs.

use vstd::prelude::*;
use crate::classify::{
    is_opening_tag,
    is_self_closing_tag,
    kind_of,
    opening_tag,
    self_closing_tag,
    TokenKind,
};
use crate::indent::{lemma_step_level, IndentModel, IndentState};
use crate::printer::{
    rendered,
    rendered_shared,
    write_other_tags,
    write_token,
    Outputs,
    OutputsModel,
};
use crate::text::{
    alphabetic,
    char_or_space,
    ends_with,
    is_alphabetic,
    lemma_occurs_at_concat,
    matches_at,
    occurs_at,
    texts,
};

verus! {

/// Where a token goes: to the output of one category, or to all outputs.
#[derive(Clone, Copy, Debug, PartialEq, Eq, Structural)]
pub enum Destination {
    Waypoints,
    Routes,
    Tracks,
    Shared,
}

/// The tag name of waypoints.
pub open spec fn waypoint_tag() -> Seq<char> {
    seq!['w', 'p', 't']
}

/// The tag name of routes.
pub open spec fn route_tag() -> Seq<char> {
    seq!['r', 't', 'e']
}

/// The tag name of tracks.
pub open spec fn track_tag() -> Seq<char> {
    seq!['t', 'r', 'k']
}

/// Whether the tag `t` is named `name`: it begins with `<` and `name`, and
/// the character after the name, if there is one, is not a letter.
pub open spec fn named(t: Seq<char>, name: Seq<char>) -> bool {
    (seq!['<'] + name).is_prefix_of(t) && !alphabetic(char_or_space(t, name.len() as int + 1))
}

/// Whether `t` begins a capture for the category named `name`: it is an
/// opening or a self-closing tag of that name.
pub open spec fn capture_start(t: Seq<char>, name: Seq<char>) -> bool {
    (opening_tag(t) || self_closing_tag(t)) && named(t, name)
}

/// Whether `t` is the last token of a capture for the category named `name`:
/// it begins with the closing tag of that name, written `</name>`, or it is
/// a tag of that name that ends in `/>`.
pub open spec fn capture_stop(t: Seq<char>, name: Seq<char>) -> bool {
    ||| (seq!['<', '/'] + name + seq!['>']).is_prefix_of(t)
    ||| {
        &&& self_closing_tag(t)
        &&& seq!['/', '>'].is_suffix_of(t)
        &&& named(t, name)
    }
}

/// Where a token goes that is met outside any capture.
pub open spec fn destination_of(t: Seq<char>) -> Destination {
    if capture_start(t, waypoint_tag()) {
        Destination::Waypoints
    } else if capture_start(t, route_tag()) {
        Destination::Routes
    } else if capture_start(t, track_tag()) {
        Destination::Tracks
    } else {
        Destination::Shared
    }
}

impl Destination {
    /// The tag name of a category; `Shared` has none.
    pub open spec fn tag_name(self) -> Seq<char> {
        match self {
            Destination::Waypoints => waypoint_tag(),
            Destination::Routes => route_tag(),
            Destination::Tracks => track_tag(),
            Destination::Shared => Seq::empty(),
        }
    }
}

/// The index behind the capture for `name` that takes in the token at index
/// `from`: behind the first token from there on that stops the capture, or
/// behind the last token where none does.
pub open spec fn capture_end(tokens: Seq<Seq<char>>, from: int, name: Seq<char>) -> int
    decreases tokens.len() - from,
{
    if from < 0 || from >= tokens.len() {
        from
    } else if capture_stop(tokens[from], name) {
        from + 1
    } else {
        capture_end(tokens, from + 1, name)
    }
}

/// The indent state after the tokens from index `from` up to `to` were met,
/// one after the other, beginning in state `m`.
pub open spec fn indent_after(
    tokens: Seq<Seq<char>>,
    from: int,
    to: int,
    m: IndentModel,
) -> IndentModel
    decreases to - from,
{
    if to <= from {
        m
    } else {
        indent_after(tokens, from, to - 1, m).step(kind_of(tokens[to - 1]))
    }
}

/// What the tokens from index `from` up to `to` add to the one output that
/// captures them, where the first of them is met in state `m`.
pub open spec fn captured(tokens: Seq<Seq<char>>, from: int, to: int, m: IndentModel) -> Seq<
    char,
>
    decreases to - from,
{
    if to <= from {
        Seq::empty()
    } else {
        captured(tokens, from, to - 1, m) + rendered(
            indent_after(tokens, from, to - 1, m),
            tokens[to - 1],
        )
    }
}

/// The outputs after `text` was added to the output of the category `d`.
pub open spec fn with_captured(outs: OutputsModel, d: Destination, text: Seq<char>) -> OutputsModel {
    match d {
        Destination::Waypoints => OutputsModel {
            waypoints: outs.waypoints + text,
            routes: outs.routes,
            tracks: outs.tracks,
        },
        Destination::Routes => OutputsModel {
            waypoints: outs.waypoints,
            routes: outs.routes + text,
            tracks: outs.tracks,
        },
        Destination::Tracks => OutputsModel {
            waypoints: outs.waypoints,
            routes: outs.routes,
            tracks: outs.tracks + text,
        },
        Destination::Shared => outs.with_all(text),
    }
}

/// The outputs and the indent state at the end of a pass over the tokens
/// from index `from` on, which begins with the outputs `outs` and in state
/// `m`. A token that begins a capture hands the pass on to the end of that
/// capture; any other token is written to all outputs.
pub open spec fn routed(tokens: Seq<Seq<char>>, from: int, outs: OutputsModel, m: IndentModel) -> (
    OutputsModel,
    IndentModel,
)
    decreases tokens.len() - from,
{
    if from < 0 || from >= tokens.len() {
        (outs, m)
    } else {
        let d = destination_of(tokens[from]);
        if d == Destination::Shared {
            routed(
                tokens,
                from + 1,
                outs.with_all(rendered_shared(m, tokens[from])),
                m.step(kind_of(tokens[from])),
            )
        } else {
            let end = capture_end(tokens, from, d.tag_name());
            proof {
                lemma_capture_end_bounds(tokens, from, d.tag_name());
            }
            routed(
                tokens,
                end,
                with_captured(outs, d, captured(tokens, from, end, m)),
                indent_after(tokens, from, end, m),
            )
        }
    }
}

/// A capture takes in at least the token it begins with, and ends within the
/// list.
pub proof fn lemma_capture_end_bounds(tokens: Seq<Seq<char>>, from: int, name: Seq<char>)
    requires
        0 <= from <= tokens.len(),
    ensures
        from <= capture_end(tokens, from, name) <= tokens.len(),
        from < tokens.len() ==> from < capture_end(tokens, from, name),
    decreases tokens.len() - from,
{
    if from < tokens.len() && !capture_stop(tokens[from], name) {
        lemma_capture_end_bounds(tokens, from + 1, name);
    }
}

/// Whether the tag `part` is named `tag_name`.
fn has_name(part: &str, tag_name: &str) -> (r: bool)
    ensures
        r == named(part@, tag_name@),
{
    proof {
        reveal_strlit("<");
        assert("<"@ =~= seq!['<']);
        lemma_occurs_at_concat(part@, 0, seq!['<'], tag_name@);
    }
    if !(matches_at(part, 0, "<") && matches_at(part, 1, tag_name)) {
        return false;
    }
    let n: usize = part.unicode_len();
    let m: usize = tag_name.unicode_len();
    let next: char = if m + 1 < n {
        part.get_char(m + 1)
    } else {
        ' '
    };
    !is_alphabetic(next)
}

/// Whether `part` begins a capture for the category named `tag_name`.
pub fn is_capture_start(part: &str, tag_name: &str) -> (r: bool)
    ensures
        r == capture_start(part@, tag_name@),
{
    (is_opening_tag(part) || is_self_closing_tag(part)) && has_name(part, tag_name)
}

/// Whether `part` is the last token of a capture for the category named
/// `tag_name`.
pub fn is_capture_stop(part: &str, tag_name: &str) -> (r: bool)
    ensures
        r == capture_stop(part@, tag_name@),
{
    proof {
        reveal_strlit("</");
        reveal_strlit(">");
        reveal_strlit("/>");
        assert("</"@ =~= seq!['<', '/']);
        assert(">"@ =~= seq!['>']);
        assert("/>"@ =~= seq!['/', '>']);
        lemma_occurs_at_concat(part@, 0, seq!['<', '/'] + tag_name@, seq!['>']);
        lemma_occurs_at_concat(part@, 0, seq!['<', '/'], tag_name@);
    }
    let n: usize = part.unicode_len();
    let m: usize = tag_name.unicode_len();
    let closes: bool = m < n && n - m >= 3 && matches_at(part, 0, "</") && matches_at(
        part,
        2,
        tag_name,
    ) && matches_at(part, m + 2, ">");
    closes || (is_self_closing_tag(part) && ends_with(part, "/>") && has_name(part, tag_name))
}

/// Where `part` goes when it is met outside any capture.
pub fn destination(part: &str) -> (d: Destination)
    ensures
        d == destination_of(part@),
{
    proof {
        reveal_strlit("wpt");
        reveal_strlit("rte");
        reveal_strlit("trk");
        assert("wpt"@ =~= waypoint_tag());
        assert("rte"@ =~= route_tag());
        assert("trk"@ =~= track_tag());
    }
    if is_capture_start(part, "wpt") {
        Destination::Waypoints
    } else if is_capture_start(part, "rte") {
        Destination::Routes
    } else if is_capture_start(part, "trk") {
        Destination::Tracks
    } else {
        Destination::Shared
    }
}

/// Tries to capture, for the category named `tag_name`, the tokens that
/// begin at the cursor.
///
/// Where the token at the cursor does not begin a capture for that category,
/// nothing changes and the answer is `false`. Where it does, that token and
/// those that follow it are written to `writer`, each moving the shared
/// depth, up to and including the first one that stops the capture, or up to
/// the end of the list; the cursor is left behind the last token written.
pub fn handle_tag(
    tag_name: &str,
    writer: &mut String,
    tokens: &Vec<String>,
    cursor: &mut usize,
    state: &mut IndentState,
) -> (taken: bool)
    requires
        *old(cursor) < tokens.len(),
        i64::MIN + (tokens.len() - *old(cursor)) <= old(state).level,
        old(state).level <= i64::MAX - (tokens.len() - *old(cursor)),
    ensures
        taken == capture_start(tokens[*old(cursor) as int]@, tag_name@),
        !taken ==> {
            &&& *final(cursor) == *old(cursor)
            &&& final(writer)@ == old(writer)@
            &&& *final(state) == *old(state)
        },
        taken ==> {
            let end = capture_end(texts(tokens@), *old(cursor) as int, tag_name@);
            &&& *final(cursor) == end
            &&& final(writer)@ == old(writer)@ + captured(
                texts(tokens@),
                *old(cursor) as int,
                end,
                old(state)@,
            )
            &&& final(state)@ == indent_after(
                texts(tokens@),
                *old(cursor) as int,
                end,
                old(state)@,
            )
        },
{
    let start: usize = *cursor;
    if !is_capture_start(tokens[start].as_str(), tag_name) {
        return false;
    }
    let ghost all = texts(tokens@);
    let ghost before = writer@;
    let ghost m0 = state@;
    let mut i: usize = start;
    let mut open: bool = true;
    while open && i < tokens.len()
        invariant
            start <= i <= tokens.len(),
            all == texts(tokens@),
            open ==> capture_end(all, start as int, tag_name@) == capture_end(
                all,
                i as int,
                tag_name@,
            ),
            !open ==> capture_end(all, start as int, tag_name@) == i,
            writer@ == before + captured(all, start as int, i as int, m0),
            state@ == indent_after(all, start as int, i as int, m0),
            m0.level - (i - start) <= state.level <= m0.level + (i - start),
            i64::MIN + (tokens.len() - start) <= m0.level <= i64::MAX - (tokens.len() - start),
        decreases tokens.len() - i, open as int,
    {
        let part = tokens[i].as_str();
        proof {
            assert(all[i as int] == part@);
            lemma_step_level(state@, kind_of(part@));
        }
        write_token(writer, part, state);
        if is_capture_stop(part, tag_name) {
            open = false;
        }
        i = i + 1;
        proof {
            assert(writer@ =~= before + captured(all, start as int, i as int, m0));
        }
    }
    *cursor = i;
    true
}

/// Routes every token of the list, in order, in one pass that begins at
/// depth zero: a token that begins a capture goes, with those that follow
/// it, to the output of its category, and any other token to all outputs.
/// Gives back the three documents and the indent state at the end.
pub fn route_tokens(tokens: &Vec<String>) -> (r: (Outputs, IndentState))
    requires
        tokens.len() <= i64::MAX,
    ensures
        (r.0@, r.1@) == routed(texts(tokens@), 0, OutputsModel::empty(), IndentModel::start()),
{
    let mut outs = Outputs::new();
    let mut state = IndentState::new();
    let mut cursor: usize = 0;
    let ghost all = texts(tokens@);
    proof {
        reveal_strlit("wpt");
        reveal_strlit("rte");
        reveal_strlit("trk");
        assert("wpt"@ =~= waypoint_tag());
        assert("rte"@ =~= route_tag());
        assert("trk"@ =~= track_tag());
    }
    while cursor < tokens.len()
        invariant
            cursor <= tokens.len() <= i64::MAX,
            all == texts(tokens@),
            "wpt"@ == waypoint_tag(),
            "rte"@ == route_tag(),
            "trk"@ == track_tag(),
            -cursor <= state.level <= cursor,
            routed(all, cursor as int, outs@, state@) == routed(
                all,
                0,
                OutputsModel::empty(),
                IndentModel::start(),
            ),
        decreases tokens.len() - cursor,
    {
        let ghost from = cursor as int;
        let ghost m = state@;
        let ghost o = outs@;
        proof {
            assert(all[from] == tokens[from]@);
            lemma_capture_end_bounds(all, from, waypoint_tag());
            lemma_capture_end_bounds(all, from, route_tag());
            lemma_capture_end_bounds(all, from, track_tag());
            lemma_indent_after_level(all, from, capture_end(all, from, waypoint_tag()), m);
            lemma_indent_after_level(all, from, capture_end(all, from, route_tag()), m);
            lemma_indent_after_level(all, from, capture_end(all, from, track_tag()), m);
            lemma_step_level(m, kind_of(all[from]));
        }
        if handle_tag("wpt", &mut outs.waypoints, tokens, &mut cursor, &mut state) {
            assert(outs@ == with_captured(
                o,
                Destination::Waypoints,
                captured(all, from, cursor as int, m),
            ));
        } else if handle_tag("rte", &mut outs.routes, tokens, &mut cursor, &mut state) {
            assert(outs@ == with_captured(
                o,
                Destination::Routes,
                captured(all, from, cursor as int, m),
            ));
        } else if handle_tag("trk", &mut outs.tracks, tokens, &mut cursor, &mut state) {
            assert(outs@ == with_captured(
                o,
                Destination::Tracks,
                captured(all, from, cursor as int, m),
            ));
        } else {
            write_other_tags(&mut outs, tokens[cursor].as_str(), &mut state);
            cursor = cursor + 1;
        }
    }
    (outs, state)
}

/// Between two points of a pass the depth moves by no more than one for
/// each token.
pub proof fn lemma_indent_after_level(tokens: Seq<Seq<char>>, from: int, to: int, m: IndentModel)
    requires
        from <= to,
    ensures
        m.level - (to - from) <= indent_after(tokens, from, to, m).level <= m.level + (to - from),
    decreases to - from,
{
    if from < to {
        lemma_indent_after_level(tokens, from, to - 1, m);
        lemma_step_level(indent_after(tokens, from, to - 1, m), kind_of(tokens[to - 1]));
    }
}

} // verus!
