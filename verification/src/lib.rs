//! Block-wise reordering candidates.
//!
//! An input sequence is refined into a tree of reordering candidates: at each
//! level the sequence is split into contiguous chunks of half the previous
//! block size, every ordering of those chunks becomes one candidate, and each
//! candidate is refined recursively until the block size falls below a
//! configured minimum.  A closed-form estimator predicts the number of
//! candidates without generating them, an optimizer re-parents siblings so
//! that no node keeps more than a configured number of direct children, and a
//! depth metric reports the worst-case nesting of the optimized tree.

pub mod candidate;
pub mod errors;
pub mod estimate;
pub mod expand;
pub mod metrics;
pub mod optimize;
pub mod partition;
pub mod permute;
