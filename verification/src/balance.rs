//! What a pass keeps of a well-formed document: the depth comes back to
//! where it began, and every output has, for each tag name, as many opening
//! tags as closing tags.

use vstd::prelude::*;
use crate::classify::{
    closing_tag,
    kind_of,
    lemma_kind_of,
    lemma_kinds_exclusive,
    opening_tag,
    self_closing_tag,
    TokenKind,
};
use crate::indent::{lemma_step_level, IndentModel};
use crate::printer::OutputsModel;
use crate::router::{
    capture_end,
    capture_start,
    capture_stop,
    destination_of,
    indent_after,
    lemma_capture_end_bounds,
    named,
    route_tag,
    routed,
    track_tag,
    waypoint_tag,
    Destination,
};

verus! {

/// Whether `c` ends the name of a tag.
pub open spec fn ends_name(c: char) -> bool {
    c == ' ' || c == '\t' || c == '\n' || c == '\r' || c == '>' || c == '/'
}

/// The index of the first character of `t`, from index `i` on, that ends a
/// name, or the length of `t` where there is none.
pub open spec fn name_end(t: Seq<char>, i: int) -> int
    decreases t.len() - i,
{
    if i < 0 || i >= t.len() || ends_name(t[i]) {
        i
    } else {
        name_end(t, i + 1)
    }
}

/// The name of a tag: what stands between its `<`, or its `</`, and the
/// first character that ends a name.
pub open spec fn name_of(t: Seq<char>) -> Seq<char> {
    if closing_tag(t) {
        t.subrange(2, name_end(t, 2))
    } else {
        t.subrange(1, name_end(t, 1))
    }
}

/// Whether `name` is the tag name of one of the three categories.
pub open spec fn is_category(name: Seq<char>) -> bool {
    name == waypoint_tag() || name == route_tag() || name == track_tag()
}

/// Whether the router takes `t` for a tag of the category named `name`
/// exactly where that is its name.
pub open spec fn recognised_as(t: Seq<char>, name: Seq<char>) -> bool {
    &&& opening_tag(t) || self_closing_tag(t) ==> (named(t, name) <==> name_of(t) == name)
    &&& closing_tag(t) ==> ((seq!['<', '/'] + name + seq!['>']).is_prefix_of(t) <==> name_of(t)
        == name)
}

/// Whether the router is right about `t` for each of the three categories:
/// no tag has a name that only begins like that of a category, and a closing
/// tag of a category is written without a space.
pub open spec fn recognised(t: Seq<char>) -> bool {
    &&& recognised_as(t, waypoint_tag())
    &&& recognised_as(t, route_tag())
    &&& recognised_as(t, track_tag())
}

/// The names of the elements that are open after the token `t`, where
/// `open` holds those that were open before it, the innermost last. There
/// is no answer where `t` closes an element that is not the innermost open
/// one, or where it is a tag of a category inside an element of that same
/// category.
pub open spec fn nest_step(open: Seq<Seq<char>>, t: Seq<char>) -> Option<Seq<Seq<char>>> {
    match kind_of(t) {
        TokenKind::OpeningTag => if is_category(name_of(t)) && open.contains(name_of(t)) {
            None
        } else {
            Some(open.push(name_of(t)))
        },
        TokenKind::SelfClosingTag => if is_category(name_of(t)) && open.contains(name_of(t)) {
            None
        } else {
            Some(open)
        },
        TokenKind::ClosingTag => if open.len() > 0 && open.last() == name_of(t) {
            Some(open.drop_last())
        } else {
            None
        },
        TokenKind::Text => Some(open),
    }
}

/// The names of the elements that are open after the tokens from index
/// `from` up to `to`, where `open` holds those that were open before them.
pub open spec fn nest(tokens: Seq<Seq<char>>, from: int, to: int, open: Seq<Seq<char>>) -> Option<
    Seq<Seq<char>>,
>
    decreases to - from,
{
    if to <= from {
        Some(open)
    } else {
        match nest(tokens, from, to - 1, open) {
            Some(inner) => nest_step(inner, tokens[to - 1]),
            None => None,
        }
    }
}

/// A well-formed document: its elements nest, each closed by a closing tag
/// of its own name and all closed at the end; no waypoint, route or track
/// lies inside another of its kind; and the router is right about every
/// token.
pub open spec fn well_formed(tokens: Seq<Seq<char>>) -> bool {
    &&& nest(tokens, 0, tokens.len() as int, Seq::empty()) == Some(Seq::<Seq<char>>::empty())
    &&& forall|k: int| 0 <= k < tokens.len() ==> recognised(#[trigger] tokens[k])
}

/// The tokens that a pass from index `from` on writes to the output `d`:
/// those that it writes to all outputs, and those that it captures for `d`.
pub open spec fn stream(tokens: Seq<Seq<char>>, from: int, d: Destination) -> Seq<Seq<char>>
    decreases tokens.len() - from,
{
    if from < 0 || from >= tokens.len() {
        Seq::empty()
    } else {
        let owner = destination_of(tokens[from]);
        if owner == Destination::Shared {
            seq![tokens[from]] + stream(tokens, from + 1, d)
        } else {
            let end = capture_end(tokens, from, owner.tag_name());
            proof {
                lemma_capture_end_bounds(tokens, from, owner.tag_name());
            }
            if owner == d {
                tokens.subrange(from, end) + stream(tokens, end, d)
            } else {
                stream(tokens, end, d)
            }
        }
    }
}

/// How many of the tokens `ts` are opening tags named `name`.
pub open spec fn opening_count(ts: Seq<Seq<char>>, name: Seq<char>) -> int
    decreases ts.len(),
{
    if ts.len() == 0 {
        0
    } else {
        opening_count(ts.drop_last(), name) + if opening_tag(ts.last()) && name_of(ts.last())
            == name {
            1int
        } else {
            0int
        }
    }
}

/// How many of the tokens `ts` are closing tags named `name`.
pub open spec fn closing_count(ts: Seq<Seq<char>>, name: Seq<char>) -> int
    decreases ts.len(),
{
    if ts.len() == 0 {
        0
    } else {
        closing_count(ts.drop_last(), name) + if closing_tag(ts.last()) && name_of(ts.last())
            == name {
            1int
        } else {
            0int
        }
    }
}

/// How often `name` stands among the open elements `open`.
pub open spec fn open_count(open: Seq<Seq<char>>, name: Seq<char>) -> int
    decreases open.len(),
{
    if open.len() == 0 {
        0
    } else {
        open_count(open.drop_last(), name) + if open.last() == name {
            1int
        } else {
            0int
        }
    }
}

/// By how much the tokens from index `from` up to `to` change the depth:
/// the opening tags among them less the closing tags.
pub open spec fn depth_change(tokens: Seq<Seq<char>>, from: int, to: int) -> int
    decreases to - from,
{
    if to <= from {
        0
    } else {
        depth_change(tokens, from, to - 1) + kind_of(tokens[to - 1]).delta()
    }
}

/// Meeting the tokens up to `mid` and then those from `mid` on is meeting
/// them all.
pub proof fn lemma_indent_after_split(
    tokens: Seq<Seq<char>>,
    from: int,
    mid: int,
    to: int,
    m: IndentModel,
)
    requires
        from <= mid <= to,
    ensures
        indent_after(tokens, from, to, m) == indent_after(
            tokens,
            mid,
            to,
            indent_after(tokens, from, mid, m),
        ),
    decreases to - mid,
{
    if mid < to {
        lemma_indent_after_split(tokens, from, mid, to - 1, m);
    }
}

/// The depth after some tokens is the depth before them and what they
/// change.
pub proof fn lemma_indent_after_depth(tokens: Seq<Seq<char>>, from: int, to: int, m: IndentModel)
    requires
        from <= to,
    ensures
        indent_after(tokens, from, to, m).level == m.level + depth_change(tokens, from, to),
    decreases to - from,
{
    if from < to {
        lemma_indent_after_depth(tokens, from, to - 1, m);
        lemma_step_level(indent_after(tokens, from, to - 1, m), kind_of(tokens[to - 1]));
    }
}

/// The indent state at the end of a pass is that after every token, however
/// the tokens were routed.
pub proof fn lemma_routed_indent(
    tokens: Seq<Seq<char>>,
    from: int,
    outs: OutputsModel,
    m: IndentModel,
)
    requires
        0 <= from <= tokens.len(),
    ensures
        routed(tokens, from, outs, m).1 == indent_after(tokens, from, tokens.len() as int, m),
    decreases tokens.len() - from,
{
    let n = tokens.len() as int;
    if from < n {
        let d = destination_of(tokens[from]);
        if d == Destination::Shared {
            let next = m.step(kind_of(tokens[from]));
            lemma_routed_indent(
                tokens,
                from + 1,
                outs.with_all(crate::printer::rendered_shared(m, tokens[from])),
                next,
            );
            lemma_indent_after_split(tokens, from, from + 1, n, m);
            assert(indent_after(tokens, from, from + 1, m) == next) by {
                assert(indent_after(tokens, from, from, m) == m);
            }
        } else {
            let end = capture_end(tokens, from, d.tag_name());
            lemma_capture_end_bounds(tokens, from, d.tag_name());
            lemma_routed_indent(
                tokens,
                end,
                crate::router::with_captured(
                    outs,
                    d,
                    crate::router::captured(tokens, from, end, m),
                ),
                indent_after(tokens, from, end, m),
            );
            lemma_indent_after_split(tokens, from, end, n, m);
        }
    }
}

/// Meeting the tokens up to `mid` and then those from `mid` on leaves the
/// elements open that meeting them all does.
pub proof fn lemma_nest_split(
    tokens: Seq<Seq<char>>,
    from: int,
    mid: int,
    to: int,
    open: Seq<Seq<char>>,
)
    requires
        from <= mid <= to,
    ensures
        nest(tokens, from, to, open) == match nest(tokens, from, mid, open) {
            Some(inner) => nest(tokens, mid, to, inner),
            None => None,
        },
    decreases to - mid,
{
    if mid < to {
        lemma_nest_split(tokens, from, mid, to - 1, open);
    }
}

/// Where tokens nest, they change the depth by as much as they change the
/// number of open elements.
pub proof fn lemma_nest_depth(tokens: Seq<Seq<char>>, from: int, to: int, open: Seq<Seq<char>>)
    requires
        from <= to,
        nest(tokens, from, to, open) is Some,
    ensures
        depth_change(tokens, from, to) == nest(tokens, from, to, open)->0.len() - open.len(),
    decreases to - from,
{
    if from < to {
        lemma_nest_depth(tokens, from, to - 1, open);
    }
}

/// Counting over two lists put together is counting over each.
pub proof fn lemma_counts_concat(a: Seq<Seq<char>>, b: Seq<Seq<char>>, name: Seq<char>)
    ensures
        opening_count(a + b, name) == opening_count(a, name) + opening_count(b, name),
        closing_count(a + b, name) == closing_count(a, name) + closing_count(b, name),
    decreases b.len(),
{
    if b.len() == 0 {
        assert(a + b =~= a);
    } else {
        lemma_counts_concat(a, b.drop_last(), name);
        assert((a + b).drop_last() =~= a + b.drop_last());
        assert((a + b).last() == b.last());
    }
}

/// One token moves the counts of a name as it moves the open elements of
/// that name.
pub proof fn lemma_nest_step_count(open: Seq<Seq<char>>, t: Seq<char>, name: Seq<char>)
    requires
        nest_step(open, t) is Some,
    ensures
        opening_count(seq![t], name) + open_count(open, name) == closing_count(seq![t], name)
            + open_count(nest_step(open, t)->0, name),
{
    lemma_kind_of(t);
    let one = seq![t];
    assert(one.drop_last() =~= Seq::<Seq<char>>::empty());
    assert(one.last() == t);
    assert(opening_count(one.drop_last(), name) == 0);
    assert(closing_count(one.drop_last(), name) == 0);
    match kind_of(t) {
        TokenKind::OpeningTag => {
            let after = open.push(name_of(t));
            assert(after.drop_last() =~= open);
        },
        TokenKind::ClosingTag => {},
        TokenKind::SelfClosingTag => {},
        TokenKind::Text => {},
    }
}

/// Where tokens nest, the opening tags of a name among them, with the
/// elements of that name that were open before, are as many as the closing
/// tags of that name with the elements of that name that are open after.
pub proof fn lemma_nest_counts(
    tokens: Seq<Seq<char>>,
    from: int,
    to: int,
    open: Seq<Seq<char>>,
    name: Seq<char>,
)
    requires
        0 <= from <= to <= tokens.len(),
        nest(tokens, from, to, open) is Some,
    ensures
        opening_count(tokens.subrange(from, to), name) + open_count(open, name) == closing_count(
            tokens.subrange(from, to),
            name,
        ) + open_count(nest(tokens, from, to, open)->0, name),
    decreases to - from,
{
    if from < to {
        lemma_nest_counts(tokens, from, to - 1, open, name);
        let inner = nest(tokens, from, to - 1, open)->0;
        lemma_nest_step_count(inner, tokens[to - 1], name);
        lemma_counts_concat(tokens.subrange(from, to - 1), seq![tokens[to - 1]], name);
        assert(tokens.subrange(from, to) =~= tokens.subrange(from, to - 1) + seq![tokens[to - 1]]);
    } else {
        assert(tokens.subrange(from, to) =~= Seq::<Seq<char>>::empty());
    }
}

/// What stops a capture is a closing tag that begins with `</name>`, or a
/// self-closing tag of that name.
proof fn lemma_stop_kinds(t: Seq<char>, name: Seq<char>)
    ensures
        (seq!['<', '/'] + name + seq!['>']).is_prefix_of(t) ==> closing_tag(t),
        kind_of(t) == TokenKind::OpeningTag || kind_of(t) == TokenKind::Text ==> !capture_stop(
            t,
            name,
        ),
        kind_of(t) == TokenKind::ClosingTag ==> (capture_stop(t, name) <==> (seq!['<', '/'] + name
            + seq!['>']).is_prefix_of(t)),
        kind_of(t) == TokenKind::SelfClosingTag ==> (capture_stop(t, name) ==> named(t, name)),
{
    lemma_kind_of(t);
    lemma_kinds_exclusive(t);
    let p = seq!['<', '/'] + name + seq!['>'];
    if p.is_prefix_of(t) {
        assert(t.subrange(0, p.len() as int)[0] == p[0]);
        assert(t.subrange(0, p.len() as int)[1] == p[1]);
        assert(seq!['<', '/'] =~= t.subrange(0, 2));
    }
}

/// A self-closing tag that begins a capture for a category also stops it.
proof fn lemma_self_closing_start_stops(t: Seq<char>, name: Seq<char>)
    requires
        is_category(name),
        self_closing_tag(t),
        named(t, name),
    ensures
        capture_stop(t, name),
{
    let p = seq!['<'] + name;
    assert(t.subrange(0, p.len() as int)[1] == p[1]);
    assert(p[1] == name[0]);
    if seq!['<', '?'].is_prefix_of(t) {
        assert(t.subrange(0, 2)[1] == seq!['<', '?'][1]);
    }
}

/// Inside the element that a capture began with, nothing stops the capture
/// before the closing tag of that element, and that tag does.
proof fn lemma_capture_inside(
    tokens: Seq<Seq<char>>,
    j: int,
    name: Seq<char>,
    outer: Seq<Seq<char>>,
    inner: Seq<Seq<char>>,
)
    requires
        0 <= j <= tokens.len(),
        is_category(name),
        forall|k: int| 0 <= k < tokens.len() ==> recognised(#[trigger] tokens[k]),
        !inner.contains(name),
        nest(tokens, j, tokens.len() as int, outer.push(name) + inner) == Some(
            Seq::<Seq<char>>::empty(),
        ),
    ensures
        j < capture_end(tokens, j, name) <= tokens.len(),
        nest(tokens, j, capture_end(tokens, j, name), outer.push(name) + inner) == Some(outer),
    decreases tokens.len() - j,
{
    let n = tokens.len() as int;
    let open = outer.push(name) + inner;
    assert(open[outer.len() as int] == name);
    if j == n {
        assert(nest(tokens, j, n, open) == Some(open));
        assert(open.len() > 0);
    } else {
        let t = tokens[j];
        assert(recognised(t));
        lemma_kind_of(t);
        lemma_stop_kinds(t, name);
        lemma_nest_split(tokens, j, j + 1, n, open);
        assert(nest(tokens, j, j, open) == Some(open));
        assert(nest(tokens, j, j + 1, open) == nest_step(open, t));
        let after = nest_step(open, t)->0;
        if inner.len() > 0 {
            assert(open.last() == inner.last());
            assert(inner[inner.len() - 1] != name);
            assert(open.drop_last() =~= outer.push(name) + inner.drop_last());
            assert(!inner.drop_last().contains(name)) by {
                if inner.drop_last().contains(name) {
                    let i = choose|i: int|
                        0 <= i < inner.drop_last().len() && inner.drop_last()[i] == name;
                    assert(inner[i] == name);
                }
            }
        } else {
            assert(open =~= outer.push(name));
            assert(open.drop_last() =~= outer);
        }
        if kind_of(t) == TokenKind::ClosingTag && inner.len() == 0 {
            assert(capture_stop(t, name));
            assert(capture_end(tokens, j, name) == j + 1);
        } else {
            let deeper = if kind_of(t) == TokenKind::OpeningTag {
                inner.push(name_of(t))
            } else if kind_of(t) == TokenKind::ClosingTag {
                inner.drop_last()
            } else {
                inner
            };
            assert(after =~= outer.push(name) + deeper);
            assert(!deeper.contains(name)) by {
                if kind_of(t) == TokenKind::OpeningTag && deeper.contains(name) {
                    let i = choose|i: int| 0 <= i < deeper.len() && deeper[i] == name;
                    if i < inner.len() {
                        assert(inner[i] == name);
                    }
                }
            }
            assert(!capture_stop(t, name));
            lemma_capture_inside(tokens, j + 1, name, outer, deeper);
            let end = capture_end(tokens, j + 1, name);
            assert(capture_end(tokens, j, name) == end);
            lemma_nest_split(tokens, j, j + 1, end, open);
        }
    }
}

/// A capture in a well-formed document takes in one whole element: it
/// leaves open what was open before it.
proof fn lemma_capture_restores(
    tokens: Seq<Seq<char>>,
    from: int,
    name: Seq<char>,
    open: Seq<Seq<char>>,
)
    requires
        0 <= from < tokens.len(),
        is_category(name),
        forall|k: int| 0 <= k < tokens.len() ==> recognised(#[trigger] tokens[k]),
        capture_start(tokens[from], name),
        nest(tokens, from, tokens.len() as int, open) == Some(Seq::<Seq<char>>::empty()),
    ensures
        from < capture_end(tokens, from, name) <= tokens.len(),
        nest(tokens, from, capture_end(tokens, from, name), open) == Some(open),
{
    let n = tokens.len() as int;
    let t = tokens[from];
    assert(recognised(t));
    lemma_kind_of(t);
    lemma_stop_kinds(t, name);
    lemma_nest_split(tokens, from, from + 1, n, open);
    assert(nest(tokens, from, from, open) == Some(open));
    assert(nest(tokens, from, from + 1, open) == nest_step(open, t));
    if self_closing_tag(t) {
        lemma_self_closing_start_stops(t, name);
        assert(capture_end(tokens, from, name) == from + 1);
    } else {
        assert(name_of(t) == name);
        assert(open.push(name) + Seq::<Seq<char>>::empty() =~= open.push(name));
        lemma_capture_inside(tokens, from + 1, name, open, Seq::empty());
        let end = capture_end(tokens, from + 1, name);
        assert(capture_end(tokens, from, name) == end);
        lemma_nest_split(tokens, from, from + 1, end, open);
    }
}

/// From any point of a pass over a well-formed document that lies outside a
/// capture, the opening tags of a name that an output is yet to get, with
/// the elements of that name that are open, are as many as the closing tags
/// of that name that it is yet to get.
proof fn lemma_stream_counts(
    tokens: Seq<Seq<char>>,
    from: int,
    d: Destination,
    name: Seq<char>,
    open: Seq<Seq<char>>,
)
    requires
        0 <= from <= tokens.len(),
        d != Destination::Shared,
        forall|k: int| 0 <= k < tokens.len() ==> recognised(#[trigger] tokens[k]),
        nest(tokens, from, tokens.len() as int, open) == Some(Seq::<Seq<char>>::empty()),
    ensures
        opening_count(stream(tokens, from, d), name) + open_count(open, name) == closing_count(
            stream(tokens, from, d),
            name,
        ),
    decreases tokens.len() - from,
{
    let n = tokens.len() as int;
    if from == n {
        assert(nest(tokens, from, n, open) == Some(open));
    } else {
        let t = tokens[from];
        let owner = destination_of(t);
        if owner == Destination::Shared {
            lemma_nest_split(tokens, from, from + 1, n, open);
            assert(nest(tokens, from, from, open) == Some(open));
            assert(nest(tokens, from, from + 1, open) == nest_step(open, t));
            let after = nest_step(open, t)->0;
            lemma_nest_step_count(open, t, name);
            lemma_stream_counts(tokens, from + 1, d, name, after);
            lemma_counts_concat(seq![t], stream(tokens, from + 1, d), name);
        } else {
            let tag = owner.tag_name();
            lemma_capture_restores(tokens, from, tag, open);
            let end = capture_end(tokens, from, tag);
            lemma_nest_split(tokens, from, end, n, open);
            lemma_stream_counts(tokens, end, d, name, open);
            if owner == d {
                lemma_nest_counts(tokens, from, end, open, name);
                lemma_counts_concat(tokens.subrange(from, end), stream(tokens, end, d), name);
            }
        }
    }
}

/// A pass over a well-formed document ends at depth zero, and each of the
/// three outputs gets, for every tag name, as many opening tags as closing
/// tags.
pub proof fn lemma_well_formed_balanced(tokens: Seq<Seq<char>>, d: Destination, name: Seq<char>)
    requires
        well_formed(tokens),
        d != Destination::Shared,
    ensures
        routed(tokens, 0, OutputsModel::empty(), IndentModel::start()).1.level == 0,
        opening_count(stream(tokens, 0, d), name) == closing_count(stream(tokens, 0, d), name),
{
    let n = tokens.len() as int;
    lemma_routed_indent(tokens, 0, OutputsModel::empty(), IndentModel::start());
    lemma_indent_after_depth(tokens, 0, n, IndentModel::start());
    lemma_nest_depth(tokens, 0, n, Seq::empty());
    lemma_stream_counts(tokens, 0, d, name, Seq::empty());
}

} // verus!
