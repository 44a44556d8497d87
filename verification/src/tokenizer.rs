//! The tokenizer: cuts the text of a document into tag fragments and the
//! runs of text between them.
//!
//! The text is cut before every `<` and behind every `>`. What stands before
//! the first `<` is given a `<` of its own, so that every piece but a run of
//! text begins with one. Empty and blank pieces are dropped, and so is the
//! first piece that is left: it holds what came before the first tag.

use vstd::prelude::*;
use vstd::utf8::{decode_utf8, encode_utf8_decode_utf8, encode_utf8_valid_utf8, valid_utf8};
use crate::text::{decode, is_white_space, push_char, texts, white_space};

verus! {

/// Why a document could not be cut into tokens.
#[derive(Clone, Copy, Debug, PartialEq, Eq, Structural)]
pub enum TokenizeError {
    /// The bytes of the document are not well-formed UTF-8.
    InvalidEncoding,
}

/// Whether every character of `s` is white space.
pub open spec fn blank(s: Seq<char>) -> bool {
    forall|i: int| 0 <= i < s.len() ==> white_space(#[trigger] s[i])
}

/// The pieces `done` with `piece` behind them, unless `piece` is empty or
/// blank.
pub open spec fn kept(done: Seq<Seq<char>>, piece: Seq<char>) -> Seq<Seq<char>> {
    if piece.len() == 0 || blank(piece) {
        done
    } else {
        done.push(piece)
    }
}

/// The pieces that are complete after the first `n` characters of `text`,
/// and the piece that is still open. A `<` ends the open piece and begins
/// the next one; a `>` ends the open piece behind itself.
pub open spec fn scanned(text: Seq<char>, n: int) -> (Seq<Seq<char>>, Seq<char>)
    decreases n,
{
    if n <= 0 {
        (Seq::empty(), seq!['<'])
    } else {
        let (done, piece) = scanned(text, n - 1);
        let c = text[n - 1];
        if c == '<' {
            (kept(done, piece), seq!['<'])
        } else if c == '>' {
            (kept(done, piece.push(c)), Seq::empty())
        } else {
            (done, piece.push(c))
        }
    }
}

/// All pieces of `text` that are neither empty nor blank. A `<` at the very
/// end of the text begins no piece.
pub open spec fn pieces(text: Seq<char>) -> Seq<Seq<char>> {
    let (done, piece) = scanned(text, text.len() as int);
    if text.len() == 0 {
        Seq::empty()
    } else if text.last() == '<' {
        done
    } else {
        kept(done, piece)
    }
}

/// The tokens of `text`: its pieces without the first.
pub open spec fn tokens_of(text: Seq<char>) -> Seq<Seq<char>> {
    if pieces(text).len() == 0 {
        Seq::empty()
    } else {
        pieces(text).subrange(1, pieces(text).len() as int)
    }
}

/// The shape of a token: it is neither empty nor blank, a `<` stands only at
/// its beginning and a `>` only at its end.
pub open spec fn token_shaped(t: Seq<char>) -> bool {
    &&& t.len() > 0
    &&& !blank(t)
    &&& forall|i: int| 0 <= i < t.len() && t[i] == '<' ==> i == 0
    &&& forall|i: int| 0 <= i < t.len() && t[i] == '>' ==> i == t.len() - 1
}

/// The shape of a piece that is still open: a `<` stands only at its
/// beginning, and it holds no `>`.
pub open spec fn open_shaped(t: Seq<char>) -> bool {
    &&& forall|i: int| 0 <= i < t.len() && t[i] == '<' ==> i == 0
    &&& forall|i: int| 0 <= i < t.len() ==> t[i] != '>'
}

/// Every piece that a scan completes has the shape of a token.
pub proof fn lemma_scanned_shape(text: Seq<char>, n: int)
    requires
        0 <= n <= text.len(),
    ensures
        forall|k: int|
            0 <= k < scanned(text, n).0.len() ==> token_shaped(#[trigger] scanned(text, n).0[k]),
        open_shaped(scanned(text, n).1),
    decreases n,
{
    if n > 0 {
        lemma_scanned_shape(text, n - 1);
        let (done, piece) = scanned(text, n - 1);
        let c = text[n - 1];
        if c == '<' {
            assert forall|k: int| 0 <= k < kept(done, piece).len() implies token_shaped(
                #[trigger] kept(done, piece)[k],
            ) by {
                if k < done.len() {
                    assert(kept(done, piece)[k] == done[k]);
                }
            }
        } else if c == '>' {
            let closed = piece.push(c);
            assert forall|k: int| 0 <= k < kept(done, closed).len() implies token_shaped(
                #[trigger] kept(done, closed)[k],
            ) by {
                if k < done.len() {
                    assert(kept(done, closed)[k] == done[k]);
                }
            }
        }
    }
}

/// Every token has the shape of a token.
pub proof fn lemma_tokens_shape(text: Seq<char>)
    ensures
        forall|k: int|
            0 <= k < tokens_of(text).len() ==> token_shaped(#[trigger] tokens_of(text)[k]),
{
    lemma_scanned_shape(text, text.len() as int);
    let (done, piece) = scanned(text, text.len() as int);
    assert forall|k: int| 0 <= k < pieces(text).len() implies token_shaped(
        #[trigger] pieces(text)[k],
    ) by {
        if k < done.len() {
            assert(pieces(text)[k] == done[k]);
        }
    }
    assert forall|k: int| 0 <= k < tokens_of(text).len() implies token_shaped(
        #[trigger] tokens_of(text)[k],
    ) by {
        assert(tokens_of(text)[k] == pieces(text)[k + 1]);
    }
}

/// Puts `piece` behind the pieces `done`, unless it is blank.
fn keep(done: &mut Vec<String>, piece: String, piece_blank: bool)
    requires
        piece_blank == blank(piece@),
    ensures
        texts(final(done)@) == kept(texts(old(done)@), piece@),
{
    if !piece_blank {
        done.push(piece);
        assert(texts(done@) =~= texts(old(done)@).push(piece@));
    }
}

/// Cuts `text` into its tokens.
pub fn tokenize_text(text: &str) -> (tokens: Vec<String>)
    ensures
        texts(tokens@) == tokens_of(text@),
{
    let mut done: Vec<String> = Vec::new();
    let mut piece = String::new();
    push_char(&mut piece, '<');
    let mut piece_blank: bool = is_white_space('<');
    let mut ends_in_lt: bool = false;
    let mut any: bool = false;
    proof {
        lemma_blank_push(Seq::empty(), '<');
        assert(piece@ =~= seq!['<']);
        assert(texts(done@) =~= Seq::<Seq<char>>::empty());
    }
    for c in it: text.chars()
        invariant
            it.seq() == text@,
            texts(done@) == scanned(text@, it.index()).0,
            piece@ == scanned(text@, it.index()).1,
            piece_blank == blank(piece@),
            any == (it.index() > 0),
            ends_in_lt == (it.index() > 0 && text@[it.index() - 1] == '<'),
    {
        let ghost open = piece@;
        if c == '<' {
            keep(&mut done, piece, piece_blank);
            piece = String::new();
            push_char(&mut piece, '<');
            piece_blank = is_white_space('<');
            proof {
                lemma_blank_push(Seq::empty(), '<');
                assert(piece@ =~= seq!['<']);
            }
        } else if c == '>' {
            push_char(&mut piece, c);
            let closed_blank: bool = piece_blank && is_white_space(c);
            proof {
                lemma_blank_push(open, c);
            }
            keep(&mut done, piece, closed_blank);
            piece = String::new();
            piece_blank = true;
            assert(blank(piece@));
        } else {
            push_char(&mut piece, c);
            piece_blank = piece_blank && is_white_space(c);
            proof {
                lemma_blank_push(open, c);
            }
        }
        ends_in_lt = c == '<';
        any = true;
    }
    if any && !ends_in_lt {
        keep(&mut done, piece, piece_blank);
    }
    assert(texts(done@) == pieces(text@));
    if done.len() > 0 {
        let ghost all = done@;
        done.remove(0);
        assert(texts(done@) =~= texts(all).subrange(1, all.len() as int));
    }
    done
}

/// Decodes the bytes of a document and cuts its text into tokens. Bytes
/// that are not well-formed UTF-8 are refused, and nothing else is.
pub fn tokenize(source: &[u8]) -> (r: Result<Vec<String>, TokenizeError>)
    ensures
        r is Ok <==> valid_utf8(source@),
        r matches Ok(tokens) ==> texts(tokens@) == tokens_of(decode_utf8(source@)),
{
    match decode(source) {
        Some(text) => {
            proof {
                encode_utf8_valid_utf8(text@);
                encode_utf8_decode_utf8(text@);
            }
            Ok(tokenize_text(text))
        },
        None => Err(TokenizeError::InvalidEncoding),
    }
}

/// A piece with one more character is blank where the piece is blank and
/// the character is white space.
proof fn lemma_blank_push(s: Seq<char>, c: char)
    ensures
        blank(s.push(c)) == (blank(s) && white_space(c)),
{
    if blank(s) && white_space(c) {
        assert forall|i: int| 0 <= i < s.push(c).len() implies white_space(
            #[trigger] s.push(c)[i],
        ) by {
            if i < s.len() {
                assert(s.push(c)[i] == s[i]);
            }
        }
    }
    if blank(s.push(c)) {
        assert(s.push(c)[s.len() as int] == c);
        assert forall|i: int| 0 <= i < s.len() implies white_space(#[trigger] s[i]) by {
            assert(s.push(c)[i] == s[i]);
        }
    }
}

} // verus!
