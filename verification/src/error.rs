//! The failure taxonomy of a pyramid build.

use vstd::prelude::*;

verus! {

/// Why a build run stopped.
///
/// `Empty` is raised by directory selection when nothing matches; the
/// builder treats it as trivial success.  The other variants abort the
/// run: a file system failure, an undecodable slice payload, or a slice
/// (or encode buffer) whose dimensions disagree with the first slice's.
#[derive(Clone, Copy, PartialEq, Eq, Structural, Debug)]
pub enum ThumbError {
    Empty,
    Io,
    Decode,
    Dim { expected_w: u32, expected_h: u32, got_w: u32, got_h: u32 },
}

} // verus!
