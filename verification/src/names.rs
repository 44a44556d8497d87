//! The names of the files that a conversion writes, made from the name of
//! the file that it reads.

use vstd::prelude::*;
use crate::text::push_char;

verus! {

/// The four files that a conversion writes.
#[derive(Clone, Copy, Debug, PartialEq, Eq, Structural)]
pub enum OutputFile {
    Waypoints,
    Routes,
    Tracks,
    Tokens,
}

impl OutputFile {
    /// What the name of the file adds to the base name.
    pub open spec fn suffix(self) -> Seq<char> {
        match self {
            OutputFile::Waypoints => "_wpt.gpx"@,
            OutputFile::Routes => "_rte.gpx"@,
            OutputFile::Tracks => "_trk.gpx"@,
            OutputFile::Tokens => "_tokens.txt"@,
        }
    }
}

/// The base name of a file: its name up to the first `.`, or all of it
/// where it has none.
pub fn base_name(file_name: &str) -> (base: String)
    ensures
        base@.is_prefix_of(file_name@),
        !base@.contains('.'),
        base@.len() < file_name@.len() ==> file_name@[base@.len() as int] == '.',
{
    let mut base = String::new();
    for c in it: file_name.chars()
        invariant
            it.seq() == file_name@,
            base@ == file_name@.take(it.index()),
            !base@.contains('.'),
    {
        if c == '.' {
            return base;
        }
        let ghost before = base@;
        push_char(&mut base, c);
        proof {
            assert(base@ =~= file_name@.take(it.index() + 1));
            if base@.contains('.') {
                let i = choose|i: int| 0 <= i < base@.len() && base@[i] == '.';
                if i < before.len() {
                    assert(before[i] == '.');
                }
            }
        }
    }
    assert(file_name@.take(file_name@.len() as int) =~= file_name@);
    base
}

/// The name of one of the files that are written for the base name `base`.
pub fn output_file_name(base: &str, file: OutputFile) -> (name: String)
    ensures
        name@ == base@ + file.suffix(),
{
    let mut name = String::new();
    name.append(base);
    assert(name@ =~= base@);
    match file {
        OutputFile::Waypoints => name.append("_wpt.gpx"),
        OutputFile::Routes => name.append("_rte.gpx"),
        OutputFile::Tracks => name.append("_trk.gpx"),
        OutputFile::Tokens => name.append("_tokens.txt"),
    }
    name
}

} // verus!
