use vstd::prelude::*;

verus! {

/// Per-operation latency samples, in nanoseconds, collected by a surrounding
/// benchmark harness. The core itself never reads a clock; the harness that
/// drives it fills these vectors.
#[derive(Debug)]
pub struct BenchStats {
    pub fill_order: Vec<u64>,
    pub add_order: Vec<u64>,
    pub execute_fill_by_order_type: Vec<u64>,
    pub fill_limit_order: Vec<u64>,
    pub fill_market_order: Vec<u64>,
    pub fill_immediate_or_cancel_order: Vec<u64>,
    pub fill_fill_or_kill_order: Vec<u64>,
    pub match_order_against_book: Vec<u64>,
    pub rest_remaining_limit_order: Vec<u64>,
    pub can_fill_completely: Vec<u64>,
}

impl Default for BenchStats {
    /// A sample store with every series empty.
    fn default() -> (r: Self)
        ensures
            r.fill_order@ == Seq::<u64>::empty(),
            r.add_order@ == Seq::<u64>::empty(),
            r.execute_fill_by_order_type@ == Seq::<u64>::empty(),
            r.fill_limit_order@ == Seq::<u64>::empty(),
            r.fill_market_order@ == Seq::<u64>::empty(),
            r.fill_immediate_or_cancel_order@ == Seq::<u64>::empty(),
            r.fill_fill_or_kill_order@ == Seq::<u64>::empty(),
            r.match_order_against_book@ == Seq::<u64>::empty(),
            r.rest_remaining_limit_order@ == Seq::<u64>::empty(),
            r.can_fill_completely@ == Seq::<u64>::empty(),
    {
        BenchStats {
            fill_order: Vec::new(),
            add_order: Vec::new(),
            execute_fill_by_order_type: Vec::new(),
            fill_limit_order: Vec::new(),
            fill_market_order: Vec::new(),
            fill_immediate_or_cancel_order: Vec::new(),
            fill_fill_or_kill_order: Vec::new(),
            match_order_against_book: Vec::new(),
            rest_remaining_limit_order: Vec::new(),
            can_fill_completely: Vec::new(),
        }
    }
}

} // verus!
