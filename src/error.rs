use vstd::prelude::*;

verus! {

/// The two recoverable conditions that the index reports.
#[derive(Debug, Clone, Copy, PartialEq, Eq, Structural)]
pub enum IndexError {
    /// A score record of `len` values was offered where `stride` values are expected.
    ShapeMismatch { len: usize, stride: usize },
    /// Record `index` was requested from a vector holding `size` records.
    OutOfRange { index: usize, size: usize },
}

} // verus!
