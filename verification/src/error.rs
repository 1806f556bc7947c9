//! The failures that checked operations report.

use vstd::prelude::*;

verus! {

/// Why a checked operation did nothing.
#[derive(Clone, Copy, Debug, PartialEq, Eq, Structural)]
pub enum BitError {
    /// A head is not a place inside one element.
    HeadOutOfRange,
    /// A span holds more bits, or reaches into more elements, than an address
    /// can hold.
    CapacityExceeded,
    /// An index is not below the length of the view.
    IndexOutOfRange,
    /// A range starts after its end or ends after the length of the view.
    InvalidRange,
}

} // verus!
