use vstd::prelude::*;

verus! {

/// Why a draw was refused or could not be finished.
#[derive(Clone, Copy, Debug, PartialEq, Eq, Structural)]
pub enum DrawError {
    /// The pool is empty, or the wanted quantity is not strictly between zero
    /// and the size of the pool.
    InvalidInput,
    /// No acceptable tail was found within the number of tries a draw allows.
    ExhaustedCandidateSpace,
    /// The random source could not hand out a value.
    RandomUnavailable,
}

} // verus!
