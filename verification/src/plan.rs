//! The order in which a conversion writes its files. The token dump is
//! written first, whatever happens later; the three documents are written
//! only where none of them exists yet or the user agrees to overwrite them.

use vstd::prelude::*;

verus! {

/// What is to be done next.
#[derive(Clone, Copy, Debug, PartialEq, Eq, Structural)]
pub enum WriteStep {
    /// Write the token dump.
    WriteDump,
    /// Find out which of the three documents exist already.
    LookForDocuments,
    /// Ask whether the documents may be overwritten.
    AskToOverwrite,
    /// Write the three documents.
    WriteDocuments,
    /// Nothing more; `written` says whether the documents were written.
    Finished { written: bool },
}

/// What came of a step.
#[derive(Clone, Copy, Debug, PartialEq, Eq, Structural)]
pub enum WriteOutcome {
    /// The token dump was written.
    DumpWritten,
    /// Which of the three documents exist.
    DocumentsFound { waypoints: bool, routes: bool, tracks: bool },
    /// What the user said to overwriting.
    Answered { overwrite: bool },
    /// The three documents were written.
    DocumentsWritten,
}

/// The step that follows `step` when it ended in `outcome`. An outcome that
/// is none of the step changes nothing.
pub open spec fn step_after(step: WriteStep, outcome: WriteOutcome) -> WriteStep {
    match (step, outcome) {
        (WriteStep::WriteDump, WriteOutcome::DumpWritten) => WriteStep::LookForDocuments,
        (
            WriteStep::LookForDocuments,
            WriteOutcome::DocumentsFound { waypoints, routes, tracks },
        ) => if waypoints || routes || tracks {
            WriteStep::AskToOverwrite
        } else {
            WriteStep::WriteDocuments
        },
        (WriteStep::AskToOverwrite, WriteOutcome::Answered { overwrite }) => if overwrite {
            WriteStep::WriteDocuments
        } else {
            WriteStep::Finished { written: false }
        },
        (WriteStep::WriteDocuments, WriteOutcome::DocumentsWritten) => WriteStep::Finished {
            written: true,
        },
        _ => step,
    }
}

impl WriteStep {
    /// The step with which a conversion begins to write.
    pub fn first() -> (step: WriteStep)
        ensures
            step == WriteStep::WriteDump,
    {
        WriteStep::WriteDump
    }

    /// The step that follows this one when it ended in `outcome`.
    pub fn next(self, outcome: WriteOutcome) -> (step: WriteStep)
        ensures
            step == step_after(self, outcome),
    {
        match (self, outcome) {
            (WriteStep::WriteDump, WriteOutcome::DumpWritten) => WriteStep::LookForDocuments,
            (
                WriteStep::LookForDocuments,
                WriteOutcome::DocumentsFound { waypoints, routes, tracks },
            ) => {
                if waypoints || routes || tracks {
                    WriteStep::AskToOverwrite
                } else {
                    WriteStep::WriteDocuments
                }
            },
            (WriteStep::AskToOverwrite, WriteOutcome::Answered { overwrite }) => {
                if overwrite {
                    WriteStep::WriteDocuments
                } else {
                    WriteStep::Finished { written: false }
                }
            },
            (WriteStep::WriteDocuments, WriteOutcome::DocumentsWritten) => WriteStep::Finished {
                written: true,
            },
            _ => self,
        }
    }
}

/// The documents are written only after the token dump, and never against
/// the user's answer: the step that writes them follows only on finding
/// none of them, or on the user's consent.
pub proof fn lemma_documents_guarded(step: WriteStep, outcome: WriteOutcome)
    requires
        step != WriteStep::WriteDocuments,
        step_after(step, outcome) == WriteStep::WriteDocuments,
    ensures
        step == WriteStep::LookForDocuments || step == WriteStep::AskToOverwrite,
        step == WriteStep::LookForDocuments ==> outcome == (WriteOutcome::DocumentsFound {
            waypoints: false,
            routes: false,
            tracks: false,
        }),
        step == WriteStep::AskToOverwrite ==> outcome == (WriteOutcome::Answered {
            overwrite: true,
        }),
{
}

} // verus!
