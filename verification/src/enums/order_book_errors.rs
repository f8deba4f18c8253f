use vstd::prelude::*;

verus! {

/// The closed error taxonomy of the matching core. Every operation either
/// succeeds or surfaces one of these; nothing is recovered internally.
#[derive(Clone, Copy, Debug, PartialEq, Eq, Structural)]
pub enum OrderBookError {
    /// Construction only: the price bounds and tick size do not describe a
    /// valid tick axis.
    InvalidConfigData,
    /// The order's tick index lies outside the book's price axis.
    PriceOutOfRange,
    /// Cancel or modify was asked for an order id the book does not hold.
    OrderNotFound,
    /// An attempt was made to rest a non-limit order; only limit orders rest.
    NonLimitOrderRestAttempt,
    /// A fill-or-kill order could not be filled in full, so it was killed
    /// without producing any fill.
    CannotFillCompletely,
    /// A market order exhausted the book before it was filled; fills already
    /// produced remain recorded.
    InsufficientLiquidity,
    /// A bitset was addressed past its capacity; the payload is that capacity.
    BitsetIndexOutOfRange(usize),
    /// A price level's FIFO queue is at capacity.
    FullRingBuffer,
    /// A value was asked of an empty FIFO queue.
    EmptyRingBuffer,
}

} // verus!
