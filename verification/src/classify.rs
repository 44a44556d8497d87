//! The tag classifier: what kind of token a piece of text is, decided from
//! its first and last characters alone.

use vstd::prelude::*;
use crate::text::{ends_with, starts_with};

verus! {

/// The four kinds of token. Every token has exactly one.
#[derive(Clone, Copy, Debug, PartialEq, Eq, Structural)]
pub enum TokenKind {
    OpeningTag,
    ClosingTag,
    SelfClosingTag,
    Text,
}

impl TokenKind {
    /// By how much a token of this kind changes the nesting depth.
    pub open spec fn delta(self) -> int {
        match self {
            TokenKind::OpeningTag => 1,
            TokenKind::ClosingTag => -1,
            TokenKind::SelfClosingTag => 0,
            TokenKind::Text => 0,
        }
    }

    /// Whether a token of this kind is a tag.
    pub open spec fn is_tag(self) -> bool {
        self != TokenKind::Text
    }
}

/// A closing tag begins with `</`.
pub open spec fn closing_tag(t: Seq<char>) -> bool {
    seq!['<', '/'].is_prefix_of(t)
}

/// A self-closing tag is either an element that ends in `/>`, or a
/// processing instruction from `<?` to `?>`.
pub open spec fn self_closing_tag(t: Seq<char>) -> bool {
    ||| {
        &&& seq!['<'].is_prefix_of(t)
        &&& seq!['/', '>'].is_suffix_of(t)
        &&& !seq!['<', '/'].is_prefix_of(t)
        &&& !seq!['<', '!'].is_prefix_of(t)
    }
    ||| {
        &&& seq!['<', '?'].is_prefix_of(t)
        &&& seq!['?', '>'].is_suffix_of(t)
    }
}

/// An opening tag begins with `<`, but not with `</`, `<!` or `<?`, and is
/// not self-closing.
pub open spec fn opening_tag(t: Seq<char>) -> bool {
    &&& seq!['<'].is_prefix_of(t)
    &&& !seq!['<', '/'].is_prefix_of(t)
    &&& !seq!['<', '!'].is_prefix_of(t)
    &&& !seq!['<', '?'].is_prefix_of(t)
    &&& !self_closing_tag(t)
}

/// A tag is an opening, a closing or a self-closing tag.
pub open spec fn tag(t: Seq<char>) -> bool {
    opening_tag(t) || closing_tag(t) || self_closing_tag(t)
}

/// By how much a token changes the nesting depth.
pub open spec fn indent_delta(t: Seq<char>) -> int {
    if opening_tag(t) {
        1
    } else if closing_tag(t) {
        -1
    } else {
        0
    }
}

/// The kind of a token.
pub open spec fn kind_of(t: Seq<char>) -> TokenKind {
    if opening_tag(t) {
        TokenKind::OpeningTag
    } else if closing_tag(t) {
        TokenKind::ClosingTag
    } else if self_closing_tag(t) {
        TokenKind::SelfClosingTag
    } else {
        TokenKind::Text
    }
}

/// A token that begins with `<` and is neither a `<!` declaration nor a `<?`
/// instruction that ends in neither `?>` nor `/>`.
pub open spec fn tag_shaped(t: Seq<char>) -> bool {
    &&& seq!['<'].is_prefix_of(t)
    &&& !seq!['<', '!'].is_prefix_of(t)
    &&& seq!['<', '?'].is_prefix_of(t) ==> seq!['?', '>'].is_suffix_of(t) || seq![
        '/',
        '>',
    ].is_suffix_of(t)
}

/// No token is of two kinds: of the three tag predicates exactly one holds of
/// a tag-shaped token, and none of any other token.
pub proof fn lemma_kinds_exclusive(t: Seq<char>)
    ensures
        !(opening_tag(t) && closing_tag(t)),
        !(opening_tag(t) && self_closing_tag(t)),
        !(closing_tag(t) && self_closing_tag(t)),
        tag_shaped(t) ==> opening_tag(t) || closing_tag(t) || self_closing_tag(t),
        !tag_shaped(t) ==> !opening_tag(t) && !closing_tag(t) && !self_closing_tag(t),
        tag(t) <==> tag_shaped(t),
{
    lemma_two_prefixes(t, '/', '?');
    lemma_two_prefixes(t, '/', '!');
    lemma_two_prefixes(t, '!', '?');
    lemma_prefix_of_prefix(t, '/');
    lemma_prefix_of_prefix(t, '!');
    lemma_prefix_of_prefix(t, '?');
}

/// The depth goes up by one for an opening tag and for nothing else, down by
/// one for a closing tag and for nothing else, and stays for every other
/// token.
pub proof fn lemma_indent_delta(t: Seq<char>)
    ensures
        indent_delta(t) == 1 <==> opening_tag(t),
        indent_delta(t) == -1 <==> closing_tag(t),
        indent_delta(t) == 0 <==> !opening_tag(t) && !closing_tag(t),
        -1 <= indent_delta(t) <= 1,
{
    lemma_kinds_exclusive(t);
}

/// The kind of a token says which of the tag predicates holds of it, and by
/// how much it changes the depth.
pub proof fn lemma_kind_of(t: Seq<char>)
    ensures
        kind_of(t) == TokenKind::OpeningTag <==> opening_tag(t),
        kind_of(t) == TokenKind::ClosingTag <==> closing_tag(t),
        kind_of(t) == TokenKind::SelfClosingTag <==> self_closing_tag(t),
        kind_of(t).is_tag() <==> tag(t),
        kind_of(t).delta() == indent_delta(t),
{
    lemma_kinds_exclusive(t);
}

/// A token cannot begin with `<a` and with `<b` for two different `a`, `b`.
proof fn lemma_two_prefixes(t: Seq<char>, a: char, b: char)
    requires
        a != b,
    ensures
        !(seq!['<', a].is_prefix_of(t) && seq!['<', b].is_prefix_of(t)),
{
    if seq!['<', a].is_prefix_of(t) && seq!['<', b].is_prefix_of(t) {
        assert(t.subrange(0, 2)[1] == seq!['<', a][1]);
        assert(t.subrange(0, 2)[1] == seq!['<', b][1]);
    }
}

/// A token that begins with `<a` begins with `<`.
proof fn lemma_prefix_of_prefix(t: Seq<char>, a: char)
    ensures
        seq!['<', a].is_prefix_of(t) ==> seq!['<'].is_prefix_of(t),
{
    if seq!['<', a].is_prefix_of(t) {
        assert(t.subrange(0, 2)[0] == seq!['<', a][0]);
        assert(seq!['<'] =~= t.subrange(0, 1));
    }
}

/// Whether `part` is a closing tag.
pub fn is_closing_tag(part: &str) -> (r: bool)
    ensures
        r == closing_tag(part@),
{
    proof {
        reveal_strlit("</");
        assert("</"@ =~= seq!['<', '/']);
    }
    starts_with(part, "</")
}

/// Whether `part` is a self-closing tag.
pub fn is_self_closing_tag(part: &str) -> (r: bool)
    ensures
        r == self_closing_tag(part@),
{
    proof {
        reveal_strlit("<");
        reveal_strlit("/>");
        reveal_strlit("</");
        reveal_strlit("<!");
        reveal_strlit("<?");
        reveal_strlit("?>");
        assert("<"@ =~= seq!['<']);
        assert("/>"@ =~= seq!['/', '>']);
        assert("</"@ =~= seq!['<', '/']);
        assert("<!"@ =~= seq!['<', '!']);
        assert("<?"@ =~= seq!['<', '?']);
        assert("?>"@ =~= seq!['?', '>']);
    }
    (starts_with(part, "<") && ends_with(part, "/>") && !starts_with(part, "</") && !starts_with(
        part,
        "<!",
    )) || (starts_with(part, "<?") && ends_with(part, "?>"))
}

/// Whether `part` is an opening tag.
pub fn is_opening_tag(part: &str) -> (r: bool)
    ensures
        r == opening_tag(part@),
{
    proof {
        reveal_strlit("<");
        reveal_strlit("</");
        reveal_strlit("<!");
        reveal_strlit("<?");
        assert("<"@ =~= seq!['<']);
        assert("</"@ =~= seq!['<', '/']);
        assert("<!"@ =~= seq!['<', '!']);
        assert("<?"@ =~= seq!['<', '?']);
    }
    starts_with(part, "<") && !starts_with(part, "</") && !starts_with(part, "<!") && !starts_with(
        part,
        "<?",
    ) && !is_self_closing_tag(part)
}

/// Whether `part` is a tag of any of the three kinds.
pub fn is_tag(part: &str) -> (r: bool)
    ensures
        r == tag(part@),
{
    is_opening_tag(part) || is_closing_tag(part) || is_self_closing_tag(part)
}

/// By how much `part` changes the nesting depth: `1` for an opening tag, `-1`
/// for a closing tag, `0` for anything else.
pub fn parse_indent_level(part: &str) -> (delta: i64)
    ensures
        delta == indent_delta(part@),
{
    if is_opening_tag(part) {
        1
    } else if is_closing_tag(part) {
        -1
    } else {
        0
    }
}

/// The kind of `part`.
pub fn classify(part: &str) -> (kind: TokenKind)
    ensures
        kind == kind_of(part@),
{
    if is_opening_tag(part) {
        TokenKind::OpeningTag
    } else if is_closing_tag(part) {
        TokenKind::ClosingTag
    } else if is_self_closing_tag(part) {
        TokenKind::SelfClosingTag
    } else {
        TokenKind::Text
    }
}

} // verus!
