//! The interface to the comparison engine: a changed region of one text,
//! paired with the corresponding line in the other text being compared.

use crate::lines::AbsoluteRange;
use crate::lines::LineNumber;
use vstd::prelude::*;

verus! {

/// A changed region in this text, plus the line it corresponds to in the
/// other text being compared.
#[derive(Debug, PartialEq, Eq, Structural, Clone, Copy)]
pub struct Change {
    pub range: AbsoluteRange,
    pub opposite_line: LineNumber,
}

} // verus!
