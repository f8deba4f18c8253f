use vstd::prelude::*;

verus! {

/// The supported order types; the matching flow is selected by this tag.
#[derive(Clone, Copy, Debug, PartialEq, Eq, Structural)]
pub enum OrderType {
    Limit,
    Market,
    ImmediateOrCancel,
    FillOrKill,
}

} // verus!
