use vstd::prelude::*;

verus! {

/// Construction parameters of a book. The tick axis holds
/// `(max_price - min_price) / tick_size + 1` levels; `queue_size` is the
/// fixed capacity of each level's FIFO queue.
#[derive(Clone, Copy, Debug)]
pub struct OrderBookConfig {
    pub min_price: u32,
    pub max_price: u32,
    pub tick_size: u32,
    pub queue_size: usize,
}

impl OrderBookConfig {
    /// A configuration is valid when the price bounds span a positive
    /// multiple of the tick size, and the derived tick count fits the
    /// machine's address arithmetic.
    pub open spec fn valid(self) -> bool {
        &&& self.tick_size > 0
        &&& self.min_price < self.max_price
        &&& (self.max_price - self.min_price) % (self.tick_size as int) == 0
        &&& (self.max_price - self.min_price) / (self.tick_size as int) + 64 <= usize::MAX
    }

    /// Number of price levels on the tick axis of a valid configuration.
    pub open spec fn spec_levels(self) -> int {
        (self.max_price - self.min_price) / (self.tick_size as int) + 1
    }
}

} // verus!
