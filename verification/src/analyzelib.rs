//! Results of the build-time static check of bundled scripts, and the rule
//! deciding whether a checked source passes.

use vstd::prelude::*;

verus! {

/// A position in a checked source, zero-based.
#[derive(Copy, Clone, PartialEq, Eq, Structural, Debug)]
pub struct AnalyzeLocation {
    pub line: usize,
    pub column: usize,
}

/// One diagnostic from the static check: where it points, whether it is a
/// hard error or an advisory lint, and its message.
pub struct AnalyzeResult {
    pub location: String,
    pub location_start: AnalyzeLocation,
    pub location_end: AnalyzeLocation,
    pub is_error: bool,
    pub is_lint: bool,
    pub message: String,
}

/// Whether a diagnostic list lets the build continue: hard errors abort,
/// advisory warnings do not.
pub open spec fn spec_check_passes(results: Seq<AnalyzeResult>) -> bool {
    forall|i: int| 0 <= i < results.len() ==> !(#[trigger] results[i]).is_error
}

/// Whether the checked source passes: true exactly when no diagnostic is a
/// hard error.
pub fn check_passes(results: &Vec<AnalyzeResult>) -> (r: bool)
    ensures
        r == spec_check_passes(results@),
{
    let mut i: usize = 0;
    while i < results.len()
        invariant
            i <= results@.len(),
            forall|m: int| 0 <= m < i ==> !(#[trigger] results@[m]).is_error,
        decreases results@.len() - i,
    {
        if results[i].is_error {
            return false;
        }
        i = i + 1;
    }
    true
}

/// The byte position of a line-and-column location, given the byte offset
/// where its line starts.
pub fn location_offset(line_start: usize, column: usize) -> (r: Option<usize>)
    ensures
        line_start + column <= usize::MAX ==> r == Some((line_start + column) as usize),
        line_start + column > usize::MAX ==> r is None,
{
    line_start.checked_add(column)
}

} // verus!
