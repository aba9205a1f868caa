//! Why a count or a likelihood could not be given.

use vstd::prelude::*;

verus! {

/// The two ways in which a computation of this library is turned down.
#[derive(Debug, Clone, Copy, PartialEq, Eq, Structural)]
pub enum LikelihoodError {
    /// More is asked for than the population holds.
    InvalidInput,
    /// A product of counts does not fit in `u64`.
    Overflow,
}

} // verus!
