//! The pretty printer: what a token adds to an output, given the shared
//! nesting depth. A tag starts a line of its own, indented by two spaces for
//! each level; a token that is written to all outputs and spans several
//! lines is laid out anew.

use vstd::prelude::*;
use crate::classify::{classify, kind_of, TokenKind};
use crate::indent::{IndentModel, IndentState};
use crate::text::push_char;

verus! {

/// The three documents that a pass fills.
#[derive(Debug)]
pub struct Outputs {
    pub waypoints: String,
    pub routes: String,
    pub tracks: String,
}

/// The text of the three documents.
pub struct OutputsModel {
    pub waypoints: Seq<char>,
    pub routes: Seq<char>,
    pub tracks: Seq<char>,
}

impl OutputsModel {
    /// Three empty documents.
    pub open spec fn empty() -> OutputsModel {
        OutputsModel { waypoints: Seq::empty(), routes: Seq::empty(), tracks: Seq::empty() }
    }

    /// The documents after `text` was added to each of them.
    pub open spec fn with_all(self, text: Seq<char>) -> OutputsModel {
        OutputsModel {
            waypoints: self.waypoints + text,
            routes: self.routes + text,
            tracks: self.tracks + text,
        }
    }
}

impl View for Outputs {
    type V = OutputsModel;

    open spec fn view(&self) -> OutputsModel {
        OutputsModel { waypoints: self.waypoints@, routes: self.routes@, tracks: self.tracks@ }
    }
}

impl Outputs {
    /// Three empty documents.
    pub fn new() -> (outs: Outputs)
        ensures
            outs@ == OutputsModel::empty(),
    {
        Outputs { waypoints: String::new(), routes: String::new(), tracks: String::new() }
    }
}

/// The indentation at depth `level`: two spaces for each level, and nothing
/// at depth zero or below.
pub open spec fn indent(level: int) -> Seq<char> {
    Seq::new((if level > 0 { 2 * level } else { 0 }) as nat, |i: int| ' ')
}

/// A line break and the indentation at depth `level`.
pub open spec fn line_break(level: int) -> Seq<char> {
    seq!['\n'] + indent(level)
}

/// What comes before a token of kind `kind` that is written in state `m`.
pub open spec fn lead(m: IndentModel, kind: TokenKind) -> Seq<char> {
    if m.breaks_line(kind) {
        line_break(m.level)
    } else {
        Seq::empty()
    }
}

/// The lines of `t`: the pieces between its line breaks, of which there is
/// one more than there are line breaks.
pub open spec fn lines(t: Seq<char>) -> Seq<Seq<char>>
    decreases t.len(),
{
    if t.len() == 0 {
        seq![Seq::empty()]
    } else {
        let before = lines(t.drop_last());
        if t.last() == '\n' {
            before.push(Seq::empty())
        } else {
            before.drop_last().push(before.last().push(t.last()))
        }
    }
}

/// One line of a token that is laid out anew at depth `level`. A line that
/// ends its tag, with `>` or `/>`, has that delimiter moved to a line of its
/// own at the depth of the tag; any other line is followed by a line break
/// that leads one level deeper.
pub open spec fn reflow_line(line: Seq<char>, level: int) -> Seq<char> {
    if seq!['/', '>'].is_suffix_of(line) {
        line.take(line.len() - 2) + line_break(level) + seq!['/', '>']
    } else if seq!['>'].is_suffix_of(line) {
        line.take(line.len() - 1) + line_break(level) + seq!['>']
    } else {
        line + line_break(level + 1)
    }
}

/// The lines `ls`, each laid out anew at depth `level`, one after the other.
pub open spec fn reflow_lines(ls: Seq<Seq<char>>, level: int) -> Seq<char>
    decreases ls.len(),
{
    if ls.len() == 0 {
        Seq::empty()
    } else {
        reflow_lines(ls.drop_last(), level) + reflow_line(ls.last(), level)
    }
}

/// A token laid out anew at depth `level`: unchanged where it has no line
/// break, and line by line where it has one.
pub open spec fn reflow(t: Seq<char>, level: int) -> Seq<char> {
    if t.contains('\n') {
        reflow_lines(lines(t), level)
    } else {
        t
    }
}

/// What the token `t`, met in state `m`, adds to the one output that it is
/// written to.
pub open spec fn rendered(m: IndentModel, t: Seq<char>) -> Seq<char> {
    lead(m.entering(kind_of(t)), kind_of(t)) + t
}

/// What the token `t`, met in state `m`, adds to each output when it is
/// written to all of them.
pub open spec fn rendered_shared(m: IndentModel, t: Seq<char>) -> Seq<char> {
    lead(m.entering(kind_of(t)), kind_of(t)) + reflow(t, m.entering(kind_of(t)).level)
}

/// A token has at least one line.
pub proof fn lemma_lines_nonempty(t: Seq<char>)
    ensures
        lines(t).len() >= 1,
    decreases t.len(),
{
    if t.len() > 0 {
        lemma_lines_nonempty(t.drop_last());
    }
}

/// How many characters the lines `ls` hold between them.
pub open spec fn total_len(ls: Seq<Seq<char>>) -> int
    decreases ls.len(),
{
    if ls.len() == 0 {
        0
    } else {
        total_len(ls.drop_last()) + ls.last().len()
    }
}

/// The lines of a token hold all its characters but the line breaks, of
/// which there is one fewer than there are lines.
pub proof fn lemma_lines_total(t: Seq<char>)
    ensures
        total_len(lines(t)) + lines(t).len() == t.len() + 1,
    decreases t.len(),
{
    if t.len() == 0 {
        assert(lines(t).drop_last() =~= Seq::<Seq<char>>::empty());
        assert(total_len(lines(t).drop_last()) == 0);
    } else {
        let before = lines(t.drop_last());
        lemma_lines_total(t.drop_last());
        lemma_lines_nonempty(t.drop_last());
        if t.last() == '\n' {
            assert(lines(t).drop_last() =~= before);
        } else {
            assert(lines(t).drop_last() =~= before.drop_last());
        }
    }
}

/// Lines that are laid out anew come out longer by at least one character
/// each.
pub proof fn lemma_reflow_lines_len(ls: Seq<Seq<char>>, level: int)
    ensures
        reflow_lines(ls, level).len() >= total_len(ls) + ls.len(),
    decreases ls.len(),
{
    if ls.len() > 0 {
        lemma_reflow_lines_len(ls.drop_last(), level);
    }
}

/// To lay out anew what has been laid out is to change nothing more, for a
/// token that has no line break: such a token is left as it is.
pub proof fn lemma_reflow_idempotent(t: Seq<char>, level: int)
    requires
        !t.contains('\n'),
    ensures
        reflow(t, level) == t,
        reflow(reflow(t, level), level) == reflow(t, level),
{
}

/// A token that has a line break comes out longer when it is laid out anew,
/// so it is never left as it is.
pub proof fn lemma_reflow_grows(t: Seq<char>, level: int)
    requires
        t.contains('\n'),
    ensures
        reflow(t, level).len() > t.len(),
        reflow(t, level).contains('\n'),
{
    lemma_lines_total(t);
    lemma_reflow_lines_len(lines(t), level);
    lemma_lines_nonempty(t);
    let ls = lines(t);
    let head = reflow_lines(ls.drop_last(), level);
    let tail = reflow_line(ls.last(), level);
    let line = ls.last();
    let at = if seq!['/', '>'].is_suffix_of(line) {
        line.len() - 2
    } else if seq!['>'].is_suffix_of(line) {
        line.len() - 1
    } else {
        line.len() as int
    };
    assert(tail[at] == '\n');
    assert(reflow(t, level)[head.len() + at] == '\n');
}

/// Appends the indentation at depth `level`.
fn write_indent(out: &mut String, level: i64)
    ensures
        final(out)@ == old(out)@ + indent(level as int),
{
    let ghost before = out@;
    let mut i: i64 = 0;
    while i < level
        invariant
            0 <= i,
            level > 0 ==> i <= level,
            level <= 0 ==> i == 0,
            out@ == before + indent(i as int),
        decreases level - i,
    {
        push_char(out, ' ');
        push_char(out, ' ');
        i = i + 1;
        assert(out@ =~= before + indent(i as int));
    }
    assert(out@ =~= before + indent(level as int));
}

/// Appends a line break and the indentation at depth `level`.
fn write_line_break(out: &mut String, level: i64)
    ensures
        final(out)@ == old(out)@ + line_break(level as int),
{
    let ghost before = out@;
    push_char(out, '\n');
    write_indent(out, level);
    assert(out@ =~= before + line_break(level as int));
}

/// Appends the characters of `chars` from index `from` up to `to`.
fn push_chars(out: &mut String, chars: &Vec<char>, from: usize, to: usize)
    requires
        from <= to <= chars.len(),
    ensures
        final(out)@ == old(out)@ + chars@.subrange(from as int, to as int),
{
    let ghost before = out@;
    let mut i: usize = from;
    while i < to
        invariant
            from <= i <= to <= chars.len(),
            out@ == before + chars@.subrange(from as int, i as int),
        decreases to - i,
    {
        push_char(out, chars[i]);
        i = i + 1;
        assert(out@ =~= before + chars@.subrange(from as int, i as int));
    }
}

/// Appends one line, laid out anew at depth `level`.
fn write_reflowed_line(out: &mut String, line: &Vec<char>, level: i64)
    requires
        level < i64::MAX,
    ensures
        final(out)@ == old(out)@ + reflow_line(line@, level as int),
{
    let ghost before = out@;
    let n: usize = line.len();
    if n >= 1 && line[n - 1] == '>' {
        let cut: usize = if n >= 2 && line[n - 2] == '/' {
            n - 2
        } else {
            n - 1
        };
        push_chars(out, line, 0, cut);
        write_line_break(out, level);
        push_chars(out, line, cut, n);
        proof {
            assert(seq!['>'] =~= line@.subrange(n - 1, n as int));
            if cut == n - 2 {
                assert(seq!['/', '>'] =~= line@.subrange(n - 2, n as int));
            } else {
                if seq!['/', '>'].is_suffix_of(line@) {
                    assert(line@.subrange(n - 2, n as int)[0] == '/');
                }
            }
            assert(out@ =~= before + reflow_line(line@, level as int));
        }
    } else {
        push_chars(out, line, 0, n);
        write_line_break(out, level + 1);
        proof {
            if seq!['>'].is_suffix_of(line@) {
                assert(line@.subrange(n - 1, n as int)[0] == '>');
            }
            if seq!['/', '>'].is_suffix_of(line@) {
                assert(line@.subrange(n - 2, n as int)[1] == '>');
            }
            assert(line@.subrange(0, n as int) =~= line@);
            assert(out@ =~= before + reflow_line(line@, level as int));
        }
    }
}

/// Whether `part` spans several lines.
fn contains_line_break(part: &str) -> (r: bool)
    ensures
        r == part@.contains('\n'),
{
    for c in it: part.chars()
        invariant
            it.seq() == part@,
            forall|k: int| 0 <= k < it.index() ==> part@[k] != '\n',
    {
        if c == '\n' {
            assert(part@[it.index()] == '\n');
            return true;
        }
    }
    false
}

/// Appends `part`, laid out anew at depth `level`.
fn write_reflowed(out: &mut String, part: &str, level: i64)
    requires
        level < i64::MAX,
    ensures
        final(out)@ == old(out)@ + reflow(part@, level as int),
{
    let ghost before = out@;
    if !contains_line_break(part) {
        out.append(part);
        return ;
    }
    let mut line: Vec<char> = Vec::new();
    proof {
        assert(part@.take(0) =~= Seq::<char>::empty());
        assert(lines(part@.take(0)) =~= seq![Seq::<char>::empty()]);
        assert(lines(part@.take(0)).drop_last() =~= Seq::<Seq<char>>::empty());
    }
    for c in it: part.chars()
        invariant
            it.seq() == part@,
            level < i64::MAX,
            lines(part@.take(it.index())).len() >= 1,
            line@ == lines(part@.take(it.index())).last(),
            out@ == before + reflow_lines(
                lines(part@.take(it.index())).drop_last(),
                level as int,
            ),
    {
        let ghost seen = part@.take(it.index());
        let ghost next = part@.take(it.index() + 1);
        proof {
            assert(next.drop_last() =~= seen);
            assert(next.last() == c);
            lemma_lines_nonempty(next);
        }
        if c == '\n' {
            write_reflowed_line(out, &line, level);
            line = Vec::new();
            proof {
                assert(lines(next) == lines(seen).push(Seq::<char>::empty()));
                assert(lines(next).drop_last() =~= lines(seen));
            }
        } else {
            line.push(c);
            proof {
                assert(lines(next).drop_last() =~= lines(seen).drop_last());
            }
        }
    }
    proof {
        assert(part@.take(part@.len() as int) =~= part@);
    }
    write_reflowed_line(out, &line, level);
}

/// Writes one token to the one output `writer`, and moves the shared depth.
pub fn write_token(writer: &mut String, part: &str, state: &mut IndentState)
    requires
        i64::MIN < old(state).level < i64::MAX,
    ensures
        final(writer)@ == old(writer)@ + rendered(old(state)@, part@),
        final(state)@ == old(state)@.step(kind_of(part@)),
{
    let ghost before = writer@;
    let kind = classify(part);
    if state.before_write(kind) {
        write_line_break(writer, state.level);
    }
    writer.append(part);
    state.after_write(kind);
    assert(writer@ =~= before + rendered(old(state)@, part@));
}

/// Writes one token to all three outputs, and moves the shared depth once.
/// A token that spans several lines is laid out anew.
pub fn write_other_tags(outs: &mut Outputs, part: &str, state: &mut IndentState)
    requires
        i64::MIN < old(state).level < i64::MAX,
    ensures
        final(outs)@ == old(outs)@.with_all(rendered_shared(old(state)@, part@)),
        final(state)@ == old(state)@.step(kind_of(part@)),
{
    let kind = classify(part);
    let mut text = String::new();
    if state.before_write(kind) {
        write_line_break(&mut text, state.level);
    }
    write_reflowed(&mut text, part, state.level);
    assert(text@ =~= rendered_shared(old(state)@, part@));
    outs.waypoints.append(text.as_str());
    outs.routes.append(text.as_str());
    outs.tracks.append(text.as_str());
    state.after_write(kind);
}

} // verus!
