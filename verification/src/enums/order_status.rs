use vstd::prelude::*;

verus! {

/// Lifecycle of an order. The caller submits `PendingNew`; the engine assigns
/// every later status.
#[derive(Clone, Copy, Debug, PartialEq, Eq, Structural)]
pub enum OrderStatus {
    /// Received but not yet in the book.
    PendingNew,
    /// Resting in the book with no fill so far.
    Active,
    /// Resting in the book after some quantity executed.
    PartiallyFilled,
    /// Fully executed.
    Filled,
    /// Canceled by the user.
    Canceled,
    /// Rejected by validation.
    Rejected,
    /// Time limit reached.
    Expired,
}

} // verus!
