use vstd::prelude::*;

verus! {

/// The securities a surrounding book manager may route between. The core
/// itself is single-symbol; this tag is an opaque pass-through for callers.
#[derive(Clone, Copy, Debug, PartialEq, Eq, Hash, Structural)]
pub enum Symbol {
    AAPL,
    MSFT,
    GOOGL,
    AMZN,
    TSLA,
    META,
    NVDA,
    AMD,
    INTC,
    NFLX,
}

} // verus!
