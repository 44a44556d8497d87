//! The indent tracker: the one nesting depth of the source document, which
//! every token moves in the same way whatever output it is written to.

use vstd::prelude::*;
use crate::classify::TokenKind;

verus! {

/// The nesting depth shared by all outputs of one pass.
///
/// `level` is the depth at which the next token is written, `last_level` the
/// depth before the last change, and `last_was_text` says whether the token
/// written last was plain text.
#[derive(Clone, Copy, Debug, PartialEq, Eq, Structural)]
pub struct IndentState {
    pub level: i64,
    pub last_level: i64,
    pub last_was_text: bool,
}

/// An `IndentState` with unbounded depths.
pub struct IndentModel {
    pub level: int,
    pub last_level: int,
    pub last_was_text: bool,
}

impl IndentModel {
    /// The state in which a pass begins.
    pub open spec fn start() -> IndentModel {
        IndentModel { level: 0, last_level: 0, last_was_text: true }
    }

    /// The state in which a token of kind `kind` is written: a closing tag
    /// has taken the depth down by then.
    pub open spec fn entering(self, kind: TokenKind) -> IndentModel {
        if kind == TokenKind::ClosingTag {
            IndentModel {
                level: self.level - 1,
                last_level: self.level,
                last_was_text: self.last_was_text,
            }
        } else {
            self
        }
    }

    /// Whether a token of kind `kind`, written in this state, starts a line
    /// of its own: only a tag does, only where the depth has changed, and
    /// never right after text.
    pub open spec fn breaks_line(self, kind: TokenKind) -> bool {
        self.level != self.last_level && !self.last_was_text && kind.is_tag()
    }

    /// The state after a token of kind `kind` was written in this state: an
    /// opening tag takes the depth up for what follows it.
    pub open spec fn leaving(self, kind: TokenKind) -> IndentModel {
        if kind == TokenKind::OpeningTag {
            IndentModel { level: self.level + 1, last_level: self.level, last_was_text: false }
        } else {
            IndentModel {
                level: self.level,
                last_level: self.last_level,
                last_was_text: !kind.is_tag(),
            }
        }
    }

    /// The state after a whole token of kind `kind`.
    pub open spec fn step(self, kind: TokenKind) -> IndentModel {
        self.entering(kind).leaving(kind)
    }
}

impl View for IndentState {
    type V = IndentModel;

    open spec fn view(&self) -> IndentModel {
        IndentModel {
            level: self.level as int,
            last_level: self.last_level as int,
            last_was_text: self.last_was_text,
        }
    }
}

impl IndentState {
    /// The state in which a pass begins: depth zero, and no line break
    /// before the first token.
    pub fn new() -> (state: IndentState)
        ensures
            state@ == IndentModel::start(),
    {
        IndentState { level: 0, last_level: 0, last_was_text: true }
    }

    /// Prepares the state for writing a token of kind `kind`, and says
    /// whether the token starts a line of its own.
    pub fn before_write(&mut self, kind: TokenKind) -> (breaks: bool)
        requires
            old(self).level > i64::MIN,
        ensures
            final(self)@ == old(self)@.entering(kind),
            breaks == final(self)@.breaks_line(kind),
    {
        if kind == TokenKind::ClosingTag {
            self.last_level = self.level;
            self.level = self.level - 1;
        }
        self.level != self.last_level && !self.last_was_text && kind != TokenKind::Text
    }

    /// Records that a token of kind `kind` was written.
    pub fn after_write(&mut self, kind: TokenKind)
        requires
            old(self).level < i64::MAX,
        ensures
            final(self)@ == old(self)@.leaving(kind),
    {
        self.last_was_text = kind == TokenKind::Text;
        if kind == TokenKind::OpeningTag {
            self.last_level = self.level;
            self.level = self.level + 1;
        }
    }
}

/// A token moves the depth by its kind's delta, and by nothing else.
pub proof fn lemma_step_level(m: IndentModel, kind: TokenKind)
    ensures
        m.step(kind).level == m.level + kind.delta(),
        kind.delta() == 0 ==> m.step(kind).last_level == m.last_level,
{
}

} // verus!
