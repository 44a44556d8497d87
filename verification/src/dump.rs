//! The diagnostic token dump: every token as it was cut, each followed by a
//! line break.

use vstd::prelude::*;
use crate::printer::lines;
use crate::text::{push_char, texts};

verus! {

/// The dump of a list of tokens: each token in order, with a line break
/// behind it.
pub open spec fn dump_of(tokens: Seq<Seq<char>>) -> Seq<char>
    decreases tokens.len(),
{
    if tokens.len() == 0 {
        Seq::empty()
    } else {
        dump_of(tokens.drop_last()) + tokens.last() + seq!['\n']
    }
}

/// Writes the dump of `tokens`. How the tokens are routed later has no part
/// in it.
pub fn token_dump(tokens: &Vec<String>) -> (dump: String)
    ensures
        dump@ == dump_of(texts(tokens@)),
{
    let mut dump = String::new();
    let mut i: usize = 0;
    while i < tokens.len()
        invariant
            i <= tokens.len(),
            dump@ == dump_of(texts(tokens@).take(i as int)),
        decreases tokens.len() - i,
    {
        let ghost seen = texts(tokens@).take(i as int);
        let ghost next = texts(tokens@).take(i + 1);
        dump.append(tokens[i].as_str());
        push_char(&mut dump, '\n');
        proof {
            assert(next.drop_last() =~= seen);
            assert(next.last() == tokens[i as int]@);
            assert(dump@ =~= dump_of(seen) + next.last() + seq!['\n']);
        }
        i = i + 1;
    }
    assert(texts(tokens@).take(tokens.len() as int) =~= texts(tokens@));
    dump
}

/// Where no token has a line break of its own, the dump has exactly one
/// line for each token, in the order of the tokens: cut at its line breaks,
/// it gives the tokens back, and nothing is left behind the last line break.
pub proof fn lemma_dump_lines(tokens: Seq<Seq<char>>)
    requires
        forall|k: int| 0 <= k < tokens.len() ==> !(#[trigger] tokens[k]).contains('\n'),
    ensures
        lines(dump_of(tokens)) == tokens.push(Seq::empty()),
    decreases tokens.len(),
{
    if tokens.len() == 0 {
        assert(lines(dump_of(tokens)) =~= tokens.push(Seq::empty()));
    } else {
        let before = tokens.drop_last();
        let t = tokens.last();
        assert forall|k: int| 0 <= k < before.len() implies !(#[trigger] before[k]).contains(
            '\n',
        ) by {
            assert(before[k] == tokens[k]);
        }
        lemma_dump_lines(before);
        lemma_lines_append(dump_of(before), t);
        let body = dump_of(before) + t;
        assert(dump_of(tokens) =~= body.push('\n'));
        assert(body.push('\n').drop_last() =~= body);
        assert(lines(body.push('\n')) == lines(body).push(Seq::empty()));
        assert(lines(dump_of(before)).drop_last() =~= before);
        assert(lines(dump_of(before)).last() == Seq::<char>::empty());
        assert(Seq::<char>::empty() + t =~= t);
        assert(before.push(t) =~= tokens);
    }
}

/// Text without a line break, put behind `s`, lengthens the last line of
/// `s` and leaves the others as they are.
pub proof fn lemma_lines_append(s: Seq<char>, t: Seq<char>)
    requires
        !t.contains('\n'),
    ensures
        lines(s).len() >= 1,
        lines(s + t) == lines(s).drop_last().push(lines(s).last() + t),
    decreases t.len(),
{
    crate::printer::lemma_lines_nonempty(s);
    if t.len() == 0 {
        assert(s + t =~= s);
        assert(lines(s).last() + t =~= lines(s).last());
        assert(lines(s).drop_last().push(lines(s).last()) =~= lines(s));
    } else {
        let shorter = t.drop_last();
        let c = t.last();
        assert(c != '\n') by {
            if c == '\n' {
                assert(t[t.len() - 1] == '\n');
            }
        }
        assert(!shorter.contains('\n')) by {
            if shorter.contains('\n') {
                let i = choose|i: int| 0 <= i < shorter.len() && shorter[i] == '\n';
                assert(t[i] == '\n');
            }
        }
        lemma_lines_append(s, shorter);
        assert((s + t).drop_last() =~= s + shorter);
        assert((s + t).last() == c);
        let prev = lines(s + shorter);
        assert(prev.drop_last() =~= lines(s).drop_last());
        assert(prev.last().push(c) =~= lines(s).last() + t);
    }
}

} // verus!
