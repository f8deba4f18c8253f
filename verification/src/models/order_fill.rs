use vstd::prelude::*;

verus! {

/// One liquidity transfer between an aggressive and a resting order.
/// `quantity` is strictly positive; `price` is the resting order's tick;
/// `timestamp` comes from the book's monotonic clock.
#[derive(Clone, Copy, Debug, PartialEq, Eq, Structural)]
pub struct OrderFill {
    pub aggressive_order_id: u64,
    pub resting_order_id: u64,
    pub price: u32,
    pub quantity: u32,
    pub timestamp: u128,
}

} // verus!
