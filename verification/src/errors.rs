use vstd::prelude::*;

verus! {

/// Why a request was rejected before any work was done.
#[derive(Clone, Copy, Debug, PartialEq, Eq, Structural)]
pub enum ShuffleError {
    /// A block size, minimum block size or fan-out bound is zero or out of
    /// range, or the input sequence is empty.
    InvalidConfig,
    /// The predicted candidate count exceeds the configured ceiling, so the
    /// expansion was refused rather than run to exhaustion.
    ResourceExceeded,
}

} // verus!
