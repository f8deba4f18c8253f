use vstd::prelude::*;

use std::collections::HashMap;

use crate::enums::order_book_errors::OrderBookError;
use crate::enums::order_side::OrderSide;
use crate::enums::order_status::OrderStatus;
use crate::enums::order_type::OrderType;
use crate::ledger::slab_get_copy;
use crate::ledger::slab_insert;
use crate::ledger::slab_new;
use crate::ledger::slab_remove;
use crate::ledger::slab_set;
use crate::ledger::slab_view;
use crate::ledger::OrderSlab;
use crate::models::bitset::Bitset;
use crate::models::order::Order;
use crate::models::order_book_config::OrderBookConfig;
use crate::models::order_fill::OrderFill;
use crate::models::ring_buffer::RingBuffer;

verus! {

broadcast use vstd::std_specs::hash::group_hash_axioms;

/// A price-time-priority book over a fixed tick axis. `bids[i]` and
/// `asks[i]` hold, in arrival order, the ledger indices of the orders
/// resting at tick `i`; `order_ledger` owns the orders themselves;
/// `index_mappings` takes an external order id to its current ledger index;
/// `active_bids` / `active_asks` summarise which ticks hold liquidity;
/// `best_bid_index` / `best_ask_index` cache the best prices, raised eagerly
/// on rest and refreshed from the bitsets when read; `trade_history` is the
/// append-only record of every fill; `next_timestamp` is the book's
/// monotonic clock, advanced on each fill.
pub struct FixedPriceOrderBook {
    pub config: OrderBookConfig,
    pub bids: Vec<RingBuffer>,
    pub asks: Vec<RingBuffer>,
    pub order_ledger: OrderSlab,
    pub index_mappings: HashMap<u64, usize>,
    pub trade_history: Vec<OrderFill>,
    pub active_bids: Bitset,
    pub active_asks: Bitset,
    pub best_bid_index: Option<usize>,
    pub best_ask_index: Option<usize>,
    pub next_timestamp: u128,
}

/// The quantity a ledger entry contributes to a sum: its quantity when the
/// index is occupied, nothing otherwise.
pub open spec fn entry_qty(ledger: Map<usize, Order>, k: usize) -> int {
    if ledger.contains_key(k) {
        ledger[k].quantity as int
    } else {
        0
    }
}

/// Total resting quantity of the entries a queue references, front to back.
pub open spec fn queue_qty(ledger: Map<usize, Order>, q: Seq<usize>) -> int
    decreases q.len(),
{
    if q.len() == 0 {
        0
    } else {
        entry_qty(ledger, q[0]) + queue_qty(ledger, q.drop_first())
    }
}

/// Total quantity of a sequence of fills.
pub open spec fn fills_qty(fills: Seq<OrderFill>) -> int
    decreases fills.len(),
{
    if fills.len() == 0 {
        0
    } else {
        fills_qty(fills.drop_last()) + fills.last().quantity as int
    }
}

/// Fill prices are non-decreasing front to back.
pub open spec fn fills_price_ascending(fills: Seq<OrderFill>) -> bool {
    forall|a: int, b: int|
        0 <= a <= b < fills.len() ==> (#[trigger] fills[a]).price <= (#[trigger] fills[b]).price
}

/// Fill prices are non-increasing front to back.
pub open spec fn fills_price_descending(fills: Seq<OrderFill>) -> bool {
    forall|a: int, b: int|
        0 <= a <= b < fills.len() ==> (#[trigger] fills[a]).price >= (#[trigger] fills[b]).price
}


/// `b` is `a` after zero or more partial fills: identity fields unchanged,
/// quantity positive and no larger.
pub open spec fn entry_shrunk(b: Order, a: Order) -> bool {
    &&& b.order_id == a.order_id
    &&& b.order_type == a.order_type
    &&& b.order_status == a.order_status
    &&& b.order_side == a.order_side
    &&& b.user_id == a.user_id
    &&& b.price == a.price
    &&& 0 < b.quantity <= a.quantity
}

/// The queue `post_q` is what is left of `pre_q` after some of its front
/// entries were consumed: a suffix, in the original order.
pub open spec fn queue_suffix_of(post_q: Seq<usize>, pre_q: Seq<usize>) -> bool {
    exists|sk: int| 0 <= sk <= pre_q.len() && post_q == pre_q.skip(sk)
}

/// The fill consumed liquidity from an order that rested in `book` on
/// `side`: some ledger entry there carries the fill's resting id at the
/// fill's price, with at least the fill's quantity.
pub open spec fn fill_consumes_resting(book: FixedPriceOrderBook, side: OrderSide, f: OrderFill) -> bool {
    exists|k: usize|
        {
            &&& book.ledger().contains_key(k)
            &&& book.ledger()[k].order_id == f.resting_order_id
            &&& book.ledger()[k].order_side == side
            &&& book.ledger()[k].price == f.price
            &&& f.quantity as int <= book.ledger()[k].quantity as int
        }
}

/// What resting the remainder of a limit order does: only limit orders may
/// rest; a saturated level fails with `FullRingBuffer` and rests nothing; a
/// failure leaves the book untouched; on success the order — marked
/// `PartiallyFilled` when fills were produced, `Active` otherwise — enters
/// the ledger at a fresh index, queued at the back of its side's queue at
/// its tick and recorded in the index mapping, every other queue untouched.
pub open spec fn rest_outcome(
    pre: FixedPriceOrderBook,
    post: FixedPriceOrderBook,
    order: Order,
    partially_filled: bool,
    r: Result<(), OrderBookError>,
) -> bool {
    &&& post.wf()
    &&& (r is Err <==> (order.order_type != OrderType::Limit || pre.queue_at(
        order.order_side,
        order.price as int,
    ).len() == pre.config.queue_size))
    &&& (order.order_type != OrderType::Limit ==> r == Err::<(), OrderBookError>(
        OrderBookError::NonLimitOrderRestAttempt,
    ))
    &&& ((order.order_type == OrderType::Limit && r is Err) ==> r == Err::<(), OrderBookError>(
        OrderBookError::FullRingBuffer,
    ))
    &&& (r is Err ==> post == pre)
    &&& (r is Ok ==> ({
        let rested = Order {
            order_status: if partially_filled {
                OrderStatus::PartiallyFilled
            } else {
                OrderStatus::Active
            },
            ..order
        };
        exists|k: usize|
            {
                &&& !pre.ledger().contains_key(k)
                &&& post.ledger() == pre.ledger().insert(k, rested)
                &&& post.index_mappings@ == pre.index_mappings@.insert(order.order_id, k)
                &&& post.queue_at(order.order_side, order.price as int) == pre.queue_at(
                    order.order_side,
                    order.price as int,
                ).push(k)
            }
    }))
    &&& (r is Ok ==> (forall|side: OrderSide, n: int|
        0 <= n < pre.levels() && !(side == order.order_side && n == order.price as int)
            ==> post.queues_of(side)[n] == pre.queues_of(side)[n]))
    &&& post.config == pre.config
    &&& post.trade_history == pre.trade_history
    &&& post.next_timestamp == pre.next_timestamp
}

/// What cancelling a known order does: its ledger slot is released, its id
/// leaves the index mapping, its index leaves its side's queue at its tick
/// with the survivors' order preserved, and nothing else moves.
pub open spec fn cancel_outcome(
    pre: FixedPriceOrderBook,
    post: FixedPriceOrderBook,
    order_id: u64,
) -> bool {
    let k = pre.index_mappings@[order_id];
    let o = pre.ledger()[k];
    &&& pre.index_mappings@.contains_key(order_id)
    &&& post.wf()
    &&& post.ledger() == pre.ledger().remove(k)
    &&& post.index_mappings@ == pre.index_mappings@.remove(order_id)
    &&& (exists|j: int|
        0 <= j < pre.queue_at(o.order_side, o.price as int).len() && pre.queue_at(
            o.order_side,
            o.price as int,
        )[j] == k && post.queue_at(o.order_side, o.price as int) == pre.queue_at(
            o.order_side,
            o.price as int,
        ).remove(j))
    &&& (forall|side: OrderSide, n: int|
        0 <= n < pre.levels() && !(side == o.order_side && n == o.price as int)
            ==> post.queues_of(side)[n] == pre.queues_of(side)[n])
    &&& post.trade_history == pre.trade_history
    &&& post.best_bid_index == pre.best_bid_index
    &&& post.best_ask_index == pre.best_ask_index
    &&& post.next_timestamp == pre.next_timestamp
    &&& post.config == pre.config
}

/// One matching pass plus its record: the book moved from `pre` to `post`
/// by a traversal of the ticks `lo..=hi` against the order, and exactly the
/// produced fills were appended to the trade history.
pub open spec fn matched_recorded(
    pre: FixedPriceOrderBook,
    post: FixedPriceOrderBook,
    order: Order,
    fills: Seq<OrderFill>,
    lo: int,
    hi: int,
) -> bool {
    &&& match_outcome(
        pre,
        post,
        order,
        (Order {
            quantity: (order.quantity - min_qty(
                order.quantity as int,
                pre.range_qty(order.order_side.spec_opposite(), lo, hi),
            )) as i32,
            ..order
        }),
        fills,
        lo,
        hi,
    )
    &&& post.trade_history@ == pre.trade_history@ + fills
}

/// A limit order's admission: the book first matched it within its price,
/// recording the fills (`mid` is the book at that moment), and then, when
/// quantity remained, rested the remainder — so the result and the final
/// state are those of the rest step, and with no remainder the book stayed
/// at `mid`.
pub open spec fn limit_admission(
    pre: FixedPriceOrderBook,
    post: FixedPriceOrderBook,
    order: Order,
    r: Result<(), OrderBookError>,
    mid: FixedPriceOrderBook,
    fills: Seq<OrderFill>,
) -> bool {
    let c = min_qty(order.quantity as int, pre.limit_avail(order));
    let rem = order.quantity - c;
    &&& mid.wf()
    &&& matched_recorded(pre, mid, order, fills, pre.limit_lo(order), pre.limit_hi(order))
    &&& (rem > 0 ==> rest_outcome(
        mid,
        post,
        (Order { quantity: rem as i32, ..order }),
        fills.len() > 0,
        r,
    ))
    &&& (rem == 0 ==> post == mid && r is Ok)
}

/// The per-type outcome of admitting an order whose tick lies on the axis:
/// what `execute_fill_by_order_type` (and through it `add_order` and
/// `modify_order`) does to the book.
pub open spec fn execute_outcome(
    pre: FixedPriceOrderBook,
    post: FixedPriceOrderBook,
    order: Order,
    r: Result<(), OrderBookError>,
) -> bool {
    match order.order_type {
        OrderType::Limit => exists|mid: FixedPriceOrderBook, fills: Seq<OrderFill>|
            #[trigger] limit_admission(pre, post, order, r, mid, fills),
        OrderType::Market => {
            &&& (r is Err <==> pre.market_avail(order) < order.quantity)
            &&& (r is Err ==> r == Err::<(), OrderBookError>(
                OrderBookError::InsufficientLiquidity,
            ))
            &&& (exists|fills: Seq<OrderFill>|
                #[trigger] matched_recorded(pre, post, order, fills, 0, pre.levels() - 1))
        },
        OrderType::ImmediateOrCancel => {
            &&& r is Ok
            &&& (exists|fills: Seq<OrderFill>|
                #[trigger] matched_recorded(
                    pre,
                    post,
                    order,
                    fills,
                    pre.limit_lo(order),
                    pre.limit_hi(order),
                ))
        },
        OrderType::FillOrKill => {
            &&& (r is Err <==> pre.limit_avail(order) < order.quantity)
            &&& (r is Err ==> r == Err::<(), OrderBookError>(OrderBookError::CannotFillCompletely)
                && post == pre)
            &&& (r is Ok ==> exists|fills: Seq<OrderFill>|
                #[trigger] matched_recorded(
                    pre,
                    post,
                    order,
                    fills,
                    pre.limit_lo(order),
                    pre.limit_hi(order),
                ))
        },
    }
}

/// A modification's two steps: the named order was cancelled, leaving the
/// book at `mid`, and the new order was then admitted over `mid` — rejected
/// with `PriceOutOfRange` and nothing further changed when its tick lies
/// off the axis, and by the per-type admission outcome otherwise.
pub open spec fn modify_steps(
    pre: FixedPriceOrderBook,
    mid: FixedPriceOrderBook,
    post: FixedPriceOrderBook,
    order_id: u64,
    order: Order,
    r: Result<(), OrderBookError>,
) -> bool {
    &&& cancel_outcome(pre, mid, order_id)
    &&& ((order.price as int) >= pre.levels() ==> r == Err::<(), OrderBookError>(
        OrderBookError::PriceOutOfRange,
    ) && post == mid)
    &&& ((order.price as int) < pre.levels() ==> execute_outcome(mid, post, order, r))
}

/// No ledger index occurs twice.
pub open spec fn distinct_seq(q: Seq<usize>) -> bool {
    forall|a: int, b: int| 0 <= a < b < q.len() ==> q[a] != q[b]
}

/// The smaller of two quantities.
pub open spec fn min_qty(a: int, b: int) -> int {
    if a <= b {
        a
    } else {
        b
    }
}


/// The relation between a book, an aggressive order and the fills before
/// and after one matching traversal of the ticks `lo..=hi` on the side
/// opposite the aggressor: exactly the smaller of the aggressor's quantity
/// and the range's available quantity moves into fills whose prices lie in
/// the range and walk toward worse prices; the aggressor's own side, the
/// levels outside the range, and everything else but the ledger, the index
/// mapping and the clock are untouched, and surviving ledger entries only
/// shrink.
pub open spec fn match_outcome(
    pre: FixedPriceOrderBook,
    post: FixedPriceOrderBook,
    opre: Order,
    opost: Order,
    fills: Seq<OrderFill>,
    lo: int,
    hi: int,
) -> bool {
    let ms = opre.order_side.spec_opposite();
    let avail = pre.range_qty(ms, lo, hi);
    let c = min_qty(opre.quantity as int, avail);
    &&& opost == (Order { quantity: (opre.quantity - c) as i32, ..opre })
    &&& fills_qty(fills) == c
    &&& (forall|n: int|
        0 <= n < fills.len() ==> ((#[trigger] fills[n]).aggressive_order_id == opre.order_id
            && fills[n].quantity > 0 && lo <= (fills[n].price as int) <= hi))
    &&& (opre.order_side == OrderSide::Buy ==> fills_price_ascending(fills))
    &&& (opre.order_side == OrderSide::Sell ==> fills_price_descending(fills))
    &&& post.range_qty(ms, lo, hi) == avail - c
    &&& (opost.quantity > 0 ==> forall|n: int|
        lo <= n <= hi ==> #[trigger] post.queue_at(ms, n).len() == 0)
    &&& post.config == pre.config
    &&& post.best_bid_index == pre.best_bid_index
    &&& post.best_ask_index == pre.best_ask_index
    &&& post.next_timestamp >= pre.next_timestamp
    &&& post.queues_of(opre.order_side) == pre.queues_of(opre.order_side)
    &&& post.active_of(opre.order_side) == pre.active_of(opre.order_side)
    &&& (forall|n: int|
        0 <= n < pre.levels() && !(lo <= n <= hi) ==> post.queues_of(ms)[n] == pre.queues_of(
            ms,
        )[n])
    &&& (forall|n: int|
        lo <= n <= hi ==> #[trigger] queue_suffix_of(post.queue_at(ms, n), pre.queue_at(ms, n)))
    &&& (forall|n: int|
        0 <= n < fills.len() ==> #[trigger] fill_consumes_resting(pre, ms, fills[n]))
    &&& (forall|a: int, b: int|
        0 <= a < b < fills.len() ==> (#[trigger] fills[a]).resting_order_id != (#[trigger] fills[b]).resting_order_id)
    &&& (forall|k: usize| #[trigger]
        post.ledger().contains_key(k) ==> pre.ledger().contains_key(k) && entry_shrunk(
            post.ledger()[k],
            pre.ledger()[k],
        ))
    &&& (forall|k: usize|
        #![trigger pre.ledger().contains_key(k)]
        pre.ledger().contains_key(k) && !(pre.ledger()[k].order_side == ms && lo <= (
        pre.ledger()[k].price as int) <= hi) ==> post.ledger().contains_key(k) && post.ledger()[k]
            == pre.ledger()[k])
    &&& (forall|id: u64| #[trigger]
        post.index_mappings@.contains_key(id) ==> pre.index_mappings@.contains_key(id)
            && post.index_mappings@[id] == pre.index_mappings@[id])
}

impl FixedPriceOrderBook {
    /// Number of ticks on the price axis.
    pub open spec fn levels(self) -> int {
        self.config.spec_levels()
    }

    /// The occupied ledger entries.
    pub open spec fn ledger(self) -> Map<usize, Order> {
        slab_view(self.order_ledger)
    }

    /// The per-tick queues of one side.
    pub open spec fn queues_of(self, side: OrderSide) -> Seq<RingBuffer> {
        match side {
            OrderSide::Buy => self.bids@,
            OrderSide::Sell => self.asks@,
        }
    }

    /// The contents of one side's queue at tick `i`, front to back.
    pub open spec fn queue_at(self, side: OrderSide, i: int) -> Seq<usize> {
        self.queues_of(side)[i]@
    }

    /// The active-level bitset of one side.
    pub open spec fn active_of(self, side: OrderSide) -> Bitset {
        match side {
            OrderSide::Buy => self.active_bids,
            OrderSide::Sell => self.active_asks,
        }
    }

    /// Total resting quantity at one tick of one side.
    pub open spec fn level_qty(self, side: OrderSide, i: int) -> int {
        queue_qty(self.ledger(), self.queue_at(side, i))
    }

    /// Lowest tick a limit order's traversal covers: a buyer starts at the
    /// bottom of the ask axis, a seller at its own price.
    pub open spec fn limit_lo(self, order: Order) -> int {
        match order.order_side {
            OrderSide::Buy => 0,
            OrderSide::Sell => order.price as int,
        }
    }

    /// Highest tick a limit order's traversal covers: a buyer stops at its
    /// own price, a seller at the top of the bid axis.
    pub open spec fn limit_hi(self, order: Order) -> int {
        match order.order_side {
            OrderSide::Buy => order.price as int,
            OrderSide::Sell => self.levels() - 1,
        }
    }

    /// Opposite-side liquidity within a limit order's price.
    pub open spec fn limit_avail(self, order: Order) -> int {
        self.range_qty(
            order.order_side.spec_opposite(),
            self.limit_lo(order),
            self.limit_hi(order),
        )
    }

    /// All opposite-side liquidity, as a market order sees it.
    pub open spec fn market_avail(self, order: Order) -> int {
        self.range_qty(order.order_side.spec_opposite(), 0, self.levels() - 1)
    }

    /// Total resting quantity of one side over the ticks `lo..=hi`.
    pub open spec fn range_qty(self, side: OrderSide, lo: int, hi: int) -> int
        decreases hi - lo + 1,
    {
        if lo > hi {
            0
        } else {
            self.level_qty(side, lo) + self.range_qty(side, lo + 1, hi)
        }
    }

    /// A ledger index `k` is a well-formed resting order of `side` at tick
    /// `level`: the entry exists, agrees with its position, and is a live
    /// limit order with positive quantity.
    pub open spec fn entry_ok(self, side: OrderSide, level: int, k: usize) -> bool {
        &&& self.ledger().contains_key(k)
        &&& self.ledger()[k].order_side == side
        &&& self.ledger()[k].price as int == level
        &&& self.ledger()[k].quantity > 0
        &&& self.ledger()[k].order_type == OrderType::Limit
        &&& (self.ledger()[k].order_status == OrderStatus::Active || self.ledger()[k].order_status
            == OrderStatus::PartiallyFilled)
    }

    /// The axis has the configured shape: one queue per tick on each side,
    /// each with the configured capacity, and one bitset per side sized to
    /// the axis.
    pub open spec fn shape_ok(self) -> bool {
        &&& self.config.valid()
        &&& self.bids@.len() == self.levels()
        &&& self.asks@.len() == self.levels()
        &&& forall|i: int|
            0 <= i < self.levels() ==> (#[trigger] self.bids@[i]).wf() && self.bids@[i].capacity()
                == self.config.queue_size
        &&& forall|i: int|
            0 <= i < self.levels() ==> (#[trigger] self.asks@[i]).wf() && self.asks@[i].capacity()
                == self.config.queue_size
        &&& self.active_bids.wf()
        &&& self.active_bids.nbits as int == self.levels()
        &&& self.active_asks.wf()
        &&& self.active_asks.nbits as int == self.levels()
    }

    /// Every index a side's queues hold is a well-formed resting order of
    /// that side at that tick, and no index appears twice in one queue.
    pub open spec fn side_queues_ok(self, side: OrderSide) -> bool {
        &&& forall|i: int, j: int|
            0 <= i < self.levels() && 0 <= j < self.queue_at(side, i).len() ==> self.entry_ok(
                side,
                i,
                #[trigger] self.queue_at(side, i)[j],
            )
        &&& forall|i: int, j1: int, j2: int|
            0 <= i < self.levels() && 0 <= j1 < j2 < self.queue_at(side, i).len() ==> #[trigger] self.queue_at(
                side,
                i,
            )[j1] != #[trigger] self.queue_at(side, i)[j2]
    }

    /// Every occupied ledger entry is referenced from the queue its own side
    /// and price name. Together with [`Self::side_queues_ok`] this places
    /// each ledger index in exactly one queue position.
    pub open spec fn ledger_in_queues(self) -> bool {
        forall|k: usize| #[trigger]
            self.ledger().contains_key(k) ==> {
                &&& 0 <= (self.ledger()[k].price as int) < self.levels()
                &&& self.queue_at(self.ledger()[k].order_side, self.ledger()[k].price as int)
                    .contains(k)
            }
    }

    /// `index_mappings` is exactly the map from the order id of each ledger
    /// entry to its index.
    pub open spec fn mappings_ok(self) -> bool {
        &&& forall|k: usize| #[trigger]
            self.ledger().contains_key(k) ==> self.index_mappings@.contains_key(
                self.ledger()[k].order_id,
            ) && self.index_mappings@[self.ledger()[k].order_id] == k
        &&& forall|id: u64| #[trigger]
            self.index_mappings@.contains_key(id) ==> self.ledger().contains_key(
                self.index_mappings@[id],
            ) && self.ledger()[self.index_mappings@[id]].order_id == id
    }

    /// A side's active bit at tick `i` is set exactly when its queue at `i`
    /// is non-empty.
    pub open spec fn active_ok(self) -> bool {
        &&& forall|i: int|
            #[trigger] self.active_bids.spec_is_set(i) <==> (0 <= i < self.levels()
                && self.queue_at(OrderSide::Buy, i).len() > 0)
        &&& forall|i: int|
            #[trigger] self.active_asks.spec_is_set(i) <==> (0 <= i < self.levels()
                && self.queue_at(OrderSide::Sell, i).len() > 0)
    }

    /// The cached best bid, when present, is an upper bound on every active
    /// bid tick; while it is absent no bid rests at all. The cache is raised
    /// eagerly on rest and never lowered on removal, so a read falls back to
    /// the bitset when the cached tick has emptied.
    pub open spec fn bid_bound_ok(self) -> bool {
        match self.best_bid_index {
            Some(b) => b < self.levels() && forall|i: int|
                #![trigger self.active_bids.spec_is_set(i)]
                self.active_bids.spec_is_set(i) ==> i <= b,
            None => forall|i: int| !(#[trigger] self.active_bids.spec_is_set(i)),
        }
    }

    /// The cached best ask, when present, is a lower bound on every active
    /// ask tick; while it is absent no ask rests at all.
    pub open spec fn ask_bound_ok(self) -> bool {
        match self.best_ask_index {
            Some(a) => a < self.levels() && forall|i: int|
                #![trigger self.active_asks.spec_is_set(i)]
                self.active_asks.spec_is_set(i) ==> i >= a,
            None => forall|i: int| !(#[trigger] self.active_asks.spec_is_set(i)),
        }
    }

    /// Both best-price caches bound their side's active ticks.
    pub open spec fn bbo_ok(self) -> bool {
        &&& self.bid_bound_ok()
        &&& self.ask_bound_ok()
    }

    /// The core structural invariants: everything but the best-price
    /// bounds.
    pub open spec fn core_ok(self) -> bool {
        &&& self.shape_ok()
        &&& self.side_queues_ok(OrderSide::Buy)
        &&& self.side_queues_ok(OrderSide::Sell)
        &&& self.ledger_in_queues()
        &&& self.mappings_ok()
        &&& self.active_ok()
    }

    /// Full well-formedness of a book.
    pub open spec fn wf(self) -> bool {
        &&& self.core_ok()
        &&& self.bbo_ok()
    }

    /// Builds an empty book over the axis the configuration describes, or
    /// fails with `InvalidConfigData` when the price bounds do not span a
    /// positive multiple of the tick size (or the axis would not fit the
    /// machine's address range).
    #[verifier::loop_isolation(false)]
    pub fn new(config: OrderBookConfig) -> (r: Result<Self, OrderBookError>)
        ensures
            r is Err <==> !config.valid(),
            r is Err ==> r == Err::<Self, OrderBookError>(OrderBookError::InvalidConfigData),
            r is Ok ==> {
                let book = r->Ok_0;
                &&& book.wf()
                &&& book.config == config
                &&& book.ledger() =~= Map::<usize, Order>::empty()
                &&& book.index_mappings@ =~= Map::<u64, usize>::empty()
                &&& book.trade_history@ =~= Seq::<OrderFill>::empty()
                &&& book.best_bid_index is None
                &&& book.best_ask_index is None
                &&& forall|i: int|
                    0 <= i < book.levels() ==> #[trigger] book.queue_at(OrderSide::Buy, i).len()
                        == 0 && book.queue_at(OrderSide::Sell, i).len() == 0
            },
    {
        if config.tick_size == 0 || config.min_price >= config.max_price || (config.max_price
            - config.min_price) % config.tick_size != 0 {
            return Err(OrderBookError::InvalidConfigData);
        }
        let span = (config.max_price - config.min_price) / config.tick_size;
        if span as usize > usize::MAX - 64 {
            return Err(OrderBookError::InvalidConfigData);
        }
        let levels = span as usize + 1;

        let mut bids: Vec<RingBuffer> = Vec::new();
        let mut i: usize = 0;
        while i < levels
            invariant
                i <= levels,
                bids@.len() == i,
                forall|n: int|
                    0 <= n < i ==> (#[trigger] bids@[n]).wf() && bids@[n].capacity()
                        == config.queue_size && bids@[n]@.len() == 0,
            decreases levels - i,
        {
            bids.push(RingBuffer::new(config.queue_size));
            i += 1;
        }

        let mut asks: Vec<RingBuffer> = Vec::new();
        let mut j: usize = 0;
        while j < levels
            invariant
                j <= levels,
                asks@.len() == j,
                forall|n: int|
                    0 <= n < j ==> (#[trigger] asks@[n]).wf() && asks@[n].capacity()
                        == config.queue_size && asks@[n]@.len() == 0,
            decreases levels - j,
        {
            asks.push(RingBuffer::new(config.queue_size));
            j += 1;
        }

        let book = FixedPriceOrderBook {
            config,
            bids,
            asks,
            order_ledger: slab_new(),
            index_mappings: HashMap::new(),
            trade_history: Vec::new(),
            active_bids: Bitset::new(levels),
            active_asks: Bitset::new(levels),
            best_bid_index: None,
            best_ask_index: None,
            next_timestamp: 0,
        };
        proof {
            assert(book.levels() == levels as int);
            assert(book.ledger() =~= Map::<usize, Order>::empty());
        }
        Ok(book)
    }

    /// Raises the cached best bid to `order_price` when that is higher (or
    /// when no best bid is cached). Nothing else changes; never fails.
    pub fn recalculate_best_bid(&mut self, order_price: u32) -> (r: Result<(), OrderBookError>)
        requires
            old(self).wf(),
            (order_price as int) < old(self).levels(),
        ensures
            r is Ok,
            final(self).wf(),
            *final(self) == (FixedPriceOrderBook {
                best_bid_index: final(self).best_bid_index,
                ..*old(self)
            }),
            final(self).best_bid_index == (match old(self).best_bid_index {
                Some(b) => if order_price as usize > b {
                    Some(order_price as usize)
                } else {
                    Some(b)
                },
                None => Some(order_price as usize),
            }),
    {
        if let Some(current_best) = self.best_bid_index {
            if order_price as usize > current_best {
                self.best_bid_index = Some(order_price as usize);
            }
        } else {
            self.best_bid_index = Some(order_price as usize);
        }
        proof {
            lemma_core_frame(*old(self), *self);
            lemma_ask_bound_frame(*old(self), *self);
            let nb = self.best_bid_index->Some_0;
            assert forall|i: int| #[trigger]
                self.active_bids.spec_is_set(i) implies i <= nb as int by {
                assert(old(self).active_bids.spec_is_set(i));
            }
        }
        Ok(())
    }

    /// Lowers the cached best ask to `order_price` when that is lower (or
    /// when no best ask is cached). Nothing else changes; never fails.
    pub fn recalculate_best_ask(&mut self, order_price: u32) -> (r: Result<(), OrderBookError>)
        requires
            old(self).wf(),
            (order_price as int) < old(self).levels(),
        ensures
            r is Ok,
            final(self).wf(),
            *final(self) == (FixedPriceOrderBook {
                best_ask_index: final(self).best_ask_index,
                ..*old(self)
            }),
            final(self).best_ask_index == (match old(self).best_ask_index {
                Some(a) => if (order_price as usize) < a {
                    Some(order_price as usize)
                } else {
                    Some(a)
                },
                None => Some(order_price as usize),
            }),
    {
        if let Some(current_best) = self.best_ask_index {
            if (order_price as usize) < current_best {
                self.best_ask_index = Some(order_price as usize);
            }
        } else {
            self.best_ask_index = Some(order_price as usize);
        }
        proof {
            lemma_core_frame(*old(self), *self);
            lemma_bid_bound_frame(*old(self), *self);
            let na = self.best_ask_index->Some_0;
            assert forall|i: int| #[trigger]
                self.active_asks.spec_is_set(i) implies i >= na as int by {
                assert(old(self).active_asks.spec_is_set(i));
            }
        }
        Ok(())
    }


    /// The atomic liquidity transfer between the aggressive order and the
    /// resting order at `resting_order_index`, whose level queue the caller
    /// holds (popped of that index). Exactly one fill is appended, for the
    /// smaller of the two quantities, stamped with the book's clock. A
    /// resting order larger than the aggressor is decremented and pushed
    /// back to the queue's front, preserving its time priority; otherwise it
    /// is fully consumed, released from the ledger, and its id dropped from
    /// the index mapping. Returns whether the aggressor is now filled.
    pub fn fill_order(
        &mut self,
        queue: &mut RingBuffer,
        aggressive_order: &mut Order,
        resting_order_index: usize,
        fills: &mut Vec<OrderFill>,
    ) -> (r: Result<bool, OrderBookError>)
        requires
            old(self).ledger().contains_key(resting_order_index),
            old(self).ledger()[resting_order_index].quantity > 0,
            old(aggressive_order).quantity > 0,
            old(queue).wf(),
            old(self).ledger()[resting_order_index].quantity > old(aggressive_order).quantity
                ==> old(queue)@.len() < old(queue).capacity(),
        ensures
            ({
                let rest = old(self).ledger()[resting_order_index];
                let agg = *old(aggressive_order);
                let fq = if rest.quantity <= agg.quantity {
                    rest.quantity
                } else {
                    agg.quantity
                };
                &&& r == Ok::<bool, OrderBookError>(rest.quantity >= agg.quantity)
                &&& final(fills)@ == old(fills)@.push(
                    OrderFill {
                        aggressive_order_id: agg.order_id,
                        resting_order_id: rest.order_id,
                        price: rest.price,
                        quantity: fq as u32,
                        timestamp: old(self).next_timestamp,
                    },
                )
                &&& *final(aggressive_order) == (Order { quantity: (agg.quantity - fq) as i32, ..agg })
                &&& (rest.quantity > agg.quantity ==> {
                    &&& final(self).ledger() == old(self).ledger().insert(
                        resting_order_index,
                        Order { quantity: (rest.quantity - agg.quantity) as i32, ..rest },
                    )
                    &&& final(self).index_mappings == old(self).index_mappings
                    &&& final(queue)@ == old(queue)@.insert(0, resting_order_index)
                })
                &&& (rest.quantity <= agg.quantity ==> {
                    &&& final(self).ledger() == old(self).ledger().remove(resting_order_index)
                    &&& final(self).index_mappings@ == old(self).index_mappings@.remove(
                        rest.order_id,
                    )
                    &&& *final(queue) == *old(queue)
                })
            }),
            final(queue).wf(),
            final(queue).capacity() == old(queue).capacity(),
            final(self).config == old(self).config,
            final(self).bids == old(self).bids,
            final(self).asks == old(self).asks,
            final(self).trade_history == old(self).trade_history,
            final(self).active_bids == old(self).active_bids,
            final(self).active_asks == old(self).active_asks,
            final(self).best_bid_index == old(self).best_bid_index,
            final(self).best_ask_index == old(self).best_ask_index,
            final(self).next_timestamp == (if old(self).next_timestamp == u128::MAX {
                u128::MAX
            } else {
                (old(self).next_timestamp + 1) as u128
            }),
    {
        let resting_order = slab_get_copy(&self.order_ledger, resting_order_index);
        let ts = self.next_timestamp;
        if self.next_timestamp < u128::MAX {
            self.next_timestamp = self.next_timestamp + 1;
        }

        if resting_order.quantity == aggressive_order.quantity {
            let fill = OrderFill {
                aggressive_order_id: aggressive_order.order_id,
                resting_order_id: resting_order.order_id,
                price: resting_order.price,
                quantity: resting_order.quantity as u32,
                timestamp: ts,
            };
            fills.push(fill);
            aggressive_order.quantity -= resting_order.quantity;
            let removed = slab_remove(&mut self.order_ledger, resting_order_index);
            self.index_mappings.remove(&removed.order_id);
            Ok(true)
        } else if resting_order.quantity > aggressive_order.quantity {
            let fill = OrderFill {
                aggressive_order_id: aggressive_order.order_id,
                resting_order_id: resting_order.order_id,
                price: resting_order.price,
                quantity: aggressive_order.quantity as u32,
                timestamp: ts,
            };
            fills.push(fill);
            let survivor = Order {
                quantity: resting_order.quantity - aggressive_order.quantity,
                ..resting_order
            };
            slab_set(&mut self.order_ledger, resting_order_index, survivor);
            let pushed = queue.push_front(resting_order_index);
            proof {
                assert(pushed is Ok);
            }
            aggressive_order.quantity = 0;
            Ok(true)
        } else {
            let fill = OrderFill {
                aggressive_order_id: aggressive_order.order_id,
                resting_order_id: resting_order.order_id,
                price: resting_order.price,
                quantity: resting_order.quantity as u32,
                timestamp: ts,
            };
            fills.push(fill);
            aggressive_order.quantity -= resting_order.quantity;
            let removed = slab_remove(&mut self.order_ledger, resting_order_index);
            self.index_mappings.remove(&removed.order_id);
            Ok(false)
        }
    }


    /// Consumes liquidity for the aggressive order from the opposite side's
    /// queue at tick `i`, oldest order first, until the aggressor is filled
    /// or the level is empty; clears the level's active bit when the queue
    /// is left empty. Exactly `min(aggressor quantity, level quantity)` is
    /// transferred into fills at price `i`.
    #[verifier::loop_isolation(false)]
    #[verifier::rlimit(100)]
    fn drain_level(
        &mut self,
        i: usize,
        aggressive_order: &mut Order,
        fills: &mut Vec<OrderFill>,
    )
        requires
            old(self).core_ok(),
            (i as int) < old(self).levels(),
            old(aggressive_order).quantity > 0,
        ensures
            ({
                let ms = old(aggressive_order).order_side.spec_opposite();
                let osd = old(aggressive_order).order_side;
                let lvl = old(self).level_qty(ms, i as int);
                let c = min_qty(old(aggressive_order).quantity as int, lvl);
                &&& final(self).core_ok()
                &&& final(self).queues_of(osd) == old(self).queues_of(osd)
                &&& final(self).active_of(osd) == old(self).active_of(osd)
                &&& final(self).config == old(self).config
                &&& final(self).trade_history == old(self).trade_history
                &&& final(self).best_bid_index == old(self).best_bid_index
                &&& final(self).best_ask_index == old(self).best_ask_index
                &&& final(self).next_timestamp >= old(self).next_timestamp
                &&& (forall|n: int|
                    0 <= n < old(self).levels() && n != i as int ==> final(self).queues_of(ms)[n]
                        == old(self).queues_of(ms)[n])
                &&& (forall|n: int|
                    n != i as int ==> (final(self).active_of(ms).spec_is_set(n) == old(self).active_of(ms).spec_is_set(n)))
                &&& (final(self).active_of(ms).spec_is_set(i as int) ==> old(self).active_of(
                    ms,
                ).spec_is_set(i as int))
                &&& *final(aggressive_order) == (Order {
                    quantity: (old(aggressive_order).quantity - c) as i32,
                    ..*old(aggressive_order)
                })
                &&& final(self).level_qty(ms, i as int) == lvl - c
                &&& queue_suffix_of(
                    final(self).queue_at(ms, i as int),
                    old(self).queue_at(ms, i as int),
                )
                &&& final(fills)@.len() >= old(fills)@.len()
                &&& final(fills)@.subrange(0, old(fills)@.len() as int) == old(fills)@
                &&& fills_qty(final(fills)@) == fills_qty(old(fills)@) + c
                &&& (forall|n: int|
                    old(fills)@.len() <= n < final(fills)@.len() ==> {
                        &&& (#[trigger] final(fills)@[n]).aggressive_order_id == old(aggressive_order).order_id
                        &&& final(fills)@[n].price as int == i as int
                        &&& final(fills)@[n].quantity > 0
                    })
                &&& (forall|n: int|
                    old(fills)@.len() <= n < final(fills)@.len() ==> #[trigger] fill_consumes_resting(
                        *old(self),
                        ms,
                        final(fills)@[n],
                    ))
                &&& (forall|a: int, b: int|
                    old(fills)@.len() <= a < b < final(fills)@.len() ==> (#[trigger] final(fills)@[a]).resting_order_id != (#[trigger] final(fills)@[b]).resting_order_id)
                &&& (forall|k: usize| #[trigger]
                    final(self).ledger().contains_key(k) ==> old(self).ledger().contains_key(k)
                        && entry_shrunk(final(self).ledger()[k], old(self).ledger()[k]))
                &&& (forall|k: usize|
                    #![trigger old(self).ledger().contains_key(k)]
                    old(self).ledger().contains_key(k) && !(old(self).ledger()[k].order_side == ms
                        && old(self).ledger()[k].price as int == i as int) ==> final(self).ledger().contains_key(k) && final(self).ledger()[k] == old(self).ledger()[k])
                &&& (forall|id: u64| #[trigger]
                    final(self).index_mappings@.contains_key(id) ==> old(self).index_mappings@.contains_key(id) && final(self).index_mappings@[id] == old(self).index_mappings@[id])
            }),
    {
        let ghost agg0 = *old(aggressive_order);
        let ghost ms = agg0.order_side.spec_opposite();
        let ghost osd = agg0.order_side;
        let ghost f0 = old(fills)@;
        let ghost q0 = old(self).queue_at(ms, i as int);

        let mut q = RingBuffer::new(self.config.queue_size);
        match aggressive_order.order_side {
            OrderSide::Buy => core::mem::swap(&mut self.asks[i], &mut q),
            OrderSide::Sell => core::mem::swap(&mut self.bids[i], &mut q),
        }
        proof {
            assert(q@ == q0);
            assert(q@ =~= q0.skip(0));
            assert(self.queues_of(ms)[i as int]@.len() == 0);
            assert(self.side_queues_ok(osd)) by {
                lemma_side_queues_untouched(*old(self), *self, osd);
            }
            assert(self.side_queues_ok(ms)) by {
                assert forall|i2: int, j: int|
                    0 <= i2 < self.levels() && 0 <= j < self.queue_at(ms, i2).len() implies self.entry_ok(
                    ms,
                    i2,
                    #[trigger] self.queue_at(ms, i2)[j],
                ) by {
                    assert(i2 != i as int);
                    assert(self.queue_at(ms, i2) == old(self).queue_at(ms, i2));
                    assert(old(self).entry_ok(ms, i2, old(self).queue_at(ms, i2)[j]));
                }
                assert forall|i2: int, j1: int, j2: int|
                    0 <= i2 < self.levels() && 0 <= j1 < j2 < self.queue_at(ms, i2).len() implies #[trigger] self.queue_at(
                    ms,
                    i2,
                )[j1] != #[trigger] self.queue_at(ms, i2)[j2] by {
                    assert(i2 != i as int);
                    assert(self.queue_at(ms, i2) == old(self).queue_at(ms, i2));
                    assert(old(self).queue_at(ms, i2)[j1] != old(self).queue_at(ms, i2)[j2]);
                }
            }
        }

        while aggressive_order.quantity > 0 && q.len() > 0
            invariant
                self.shape_ok(),
                self.config == old(self).config,
                self.trade_history == old(self).trade_history,
                self.best_bid_index == old(self).best_bid_index,
                self.best_ask_index == old(self).best_ask_index,
                self.next_timestamp >= old(self).next_timestamp,
                self.active_bids == old(self).active_bids,
                self.active_asks == old(self).active_asks,
                self.queues_of(osd) == old(self).queues_of(osd),
                self.queues_of(ms)[i as int]@.len() == 0,
                forall|n: int|
                    0 <= n < old(self).levels() && n != i as int ==> self.queues_of(ms)[n] == old(self).queues_of(ms)[n],
                q.wf(),
                q.capacity() == self.config.queue_size,
                q@.len() <= q0.len(),
                q@ == q0.skip(q0.len() - q@.len()),
                aggressive_order.quantity >= 0,
                *aggressive_order == (Order { quantity: aggressive_order.quantity, ..agg0 }),
                forall|j: int|
                    0 <= j < q@.len() ==> self.entry_ok(ms, i as int, #[trigger] q@[j]),
                distinct_seq(q@),
                self.side_queues_ok(osd),
                self.side_queues_ok(ms),
                self.mappings_ok(),
                forall|k2: usize| #[trigger]
                    self.ledger().contains_key(k2) ==> {
                        &&& 0 <= (self.ledger()[k2].price as int) < self.levels()
                        &&& (self.ledger()[k2].order_side == ms && self.ledger()[k2].price as int
                            == i as int ==> q@.contains(k2))
                        &&& (!(self.ledger()[k2].order_side == ms && self.ledger()[k2].price as int
                            == i as int) ==> self.queue_at(
                            self.ledger()[k2].order_side,
                            self.ledger()[k2].price as int,
                        ).contains(k2))
                    },
                forall|k2: usize| #[trigger]
                    self.ledger().contains_key(k2) ==> old(self).ledger().contains_key(k2)
                        && entry_shrunk(self.ledger()[k2], old(self).ledger()[k2]),
                forall|k2: usize|
                    #![trigger old(self).ledger().contains_key(k2)]
                    old(self).ledger().contains_key(k2) && !(old(self).ledger()[k2].order_side
                        == ms && old(self).ledger()[k2].price as int == i as int)
                        ==> self.ledger().contains_key(k2) && self.ledger()[k2] == old(self).ledger()[k2],
                forall|id: u64| #[trigger]
                    self.index_mappings@.contains_key(id) ==> old(self).index_mappings@.contains_key(id) && self.index_mappings@[id] == old(self).index_mappings@[id],
                fills@.len() >= f0.len(),
                fills@.subrange(0, f0.len() as int) == f0,
                forall|n: int|
                    f0.len() <= n < fills@.len() ==> {
                        &&& (#[trigger] fills@[n]).aggressive_order_id == agg0.order_id
                        &&& fills@[n].price as int == i as int
                        &&& fills@[n].quantity > 0
                    },
                forall|n: int|
                    f0.len() <= n < fills@.len() ==> #[trigger] fill_consumes_resting(
                        *old(self),
                        ms,
                        fills@[n],
                    ),
                aggressive_order.quantity > 0 ==> forall|n: int|
                    f0.len() <= n < fills@.len() ==> !self.index_mappings@.contains_key(
                        (#[trigger] fills@[n]).resting_order_id,
                    ),
                forall|a: int, b: int|
                    f0.len() <= a < b < fills@.len() ==> (#[trigger] fills@[a]).resting_order_id
                        != (#[trigger] fills@[b]).resting_order_id,
                fills_qty(fills@) == fills_qty(f0) + (agg0.quantity - aggressive_order.quantity),
                queue_qty(self.ledger(), q@) == queue_qty(old(self).ledger(), q0) - (agg0.quantity
                    - aggressive_order.quantity),
            decreases aggressive_order.quantity,
        {
            let ghost spre = *self;
            let ghost qfull = q@;
            let ghost apre = *aggressive_order;
            let ghost fpre = fills@;

            let popped = q.pop_front();
            let resting_order_index = popped.unwrap();
            proof {
                assert(spre.entry_ok(ms, i as int, qfull[0]));
                assert(q@.len() < q.capacity());
            }
            let _filled = self.fill_order(&mut q, aggressive_order, resting_order_index, fills);

            proof {
                let k = qfull[0];
                let l1 = spre.ledger();
                let rest = l1[k];
                let fq = if rest.quantity <= apre.quantity {
                    rest.quantity as int
                } else {
                    apre.quantity as int
                };
                lemma_fills_qty_push(
                    fpre,
                    OrderFill {
                        aggressive_order_id: apre.order_id,
                        resting_order_id: rest.order_id,
                        price: rest.price,
                        quantity: fq as u32,
                        timestamp: spre.next_timestamp,
                    },
                );
                assert(fills@.subrange(0, f0.len() as int) =~= f0);
                let m = q0.len() - qfull.len();
                assert(qfull == q0.skip(m as int));
                assert(qfull.drop_first() =~= q0.skip(m as int + 1));
                if rest.quantity > apre.quantity {
                    assert(qfull[0] == k);
                    assert(q@ =~= qfull.drop_first().insert(0, k));
                    assert(q@ =~= q0.skip(m as int));
                } else {
                    assert(q@ =~= q0.skip(m as int + 1));
                }
                assert(queue_qty(l1, qfull) == entry_qty(l1, k) + queue_qty(
                    l1,
                    qfull.drop_first(),
                ));
                assert forall|j: int|
                    0 <= j < qfull.drop_first().len() implies #[trigger] qfull.drop_first()[j]
                    != k by {
                    assert(qfull.drop_first()[j] == qfull[j + 1]);
                }
                let l2 = self.ledger();
                if rest.quantity > apre.quantity {
                    assert forall|j: int|
                        0 <= j < qfull.drop_first().len() implies entry_qty(
                        l2,
                        #[trigger] qfull.drop_first()[j],
                    ) == entry_qty(l1, qfull.drop_first()[j]) by {
                        assert(qfull.drop_first()[j] != k);
                    }
                    lemma_queue_qty_same_entries(l2, l1, qfull.drop_first());
                    lemma_queue_qty_insert_front(l2, qfull.drop_first(), k);
                    assert(queue_qty(l2, q@) == queue_qty(l1, qfull) - fq);
                    assert forall|j: int|
                        0 <= j < q@.len() implies self.entry_ok(ms, i as int, #[trigger] q@[j]) by {
                        if j == 0 {
                            assert(q@[0] == k);
                        } else {
                            assert(q@[j] == qfull.drop_first()[j - 1]);
                            assert(spre.entry_ok(ms, i as int, qfull[j]));
                        }
                    }
                    assert(distinct_seq(q@)) by {
                        assert forall|a: int, b: int| 0 <= a < b < q@.len() implies q@[a]
                            != q@[b] by {
                            if a == 0 {
                                assert(q@[b] == qfull.drop_first()[b - 1]);
                            } else {
                                assert(q@[a] == qfull[a]);
                                assert(q@[b] == qfull[b]);
                            }
                        }
                    }
                    assert forall|k2: usize| #[trigger]
                        self.ledger().contains_key(k2) implies {
                        &&& 0 <= (self.ledger()[k2].price as int) < self.levels()
                        &&& (self.ledger()[k2].order_side == ms && self.ledger()[k2].price as int
                            == i as int ==> q@.contains(k2))
                        &&& (!(self.ledger()[k2].order_side == ms && self.ledger()[k2].price as int
                            == i as int) ==> self.queue_at(
                            self.ledger()[k2].order_side,
                            self.ledger()[k2].price as int,
                        ).contains(k2))
                    } by {
                        assert(spre.ledger().contains_key(k2));
                        if k2 == k {
                            assert(q@[0] == k2);
                        } else {
                            assert(self.ledger()[k2] == spre.ledger()[k2]);
                            if spre.ledger()[k2].order_side == ms && spre.ledger()[k2].price as int
                                == i as int {
                                let j = choose|j: int|
                                    0 <= j < qfull.len() && qfull[j] == k2;
                                assert(qfull[j] == k2);
                                assert(j != 0);
                                assert(q@[j] == qfull[j]);
                            }
                        }
                    }
                } else {
                    assert forall|j: int|
                        0 <= j < q@.len() implies entry_qty(l2, #[trigger] q@[j]) == entry_qty(
                        l1,
                        q@[j],
                    ) by {
                        assert(q@[j] != k);
                    }
                    lemma_queue_qty_same_entries(l2, l1, q@);
                    assert(queue_qty(l2, q@) == queue_qty(l1, qfull) - fq);
                    assert forall|j: int|
                        0 <= j < q@.len() implies self.entry_ok(ms, i as int, #[trigger] q@[j]) by {
                        assert(q@[j] == qfull[j + 1]);
                        assert(spre.entry_ok(ms, i as int, qfull[j + 1]));
                        assert(q@[j] != k);
                    }
                    assert forall|k2: usize| #[trigger]
                        self.ledger().contains_key(k2) implies {
                        &&& 0 <= (self.ledger()[k2].price as int) < self.levels()
                        &&& (self.ledger()[k2].order_side == ms && self.ledger()[k2].price as int
                            == i as int ==> q@.contains(k2))
                        &&& (!(self.ledger()[k2].order_side == ms && self.ledger()[k2].price as int
                            == i as int) ==> self.queue_at(
                            self.ledger()[k2].order_side,
                            self.ledger()[k2].price as int,
                        ).contains(k2))
                    } by {
                        assert(k2 != k);
                        assert(spre.ledger().contains_key(k2));
                        assert(self.ledger()[k2] == spre.ledger()[k2]);
                        if spre.ledger()[k2].order_side == ms && spre.ledger()[k2].price as int
                            == i as int {
                            let j = choose|j: int| 0 <= j < qfull.len() && qfull[j] == k2;
                            assert(qfull[j] == k2);
                            assert(j != 0);
                            assert(q@[j - 1] == qfull[j]);
                        }
                    }
                    assert(self.mappings_ok()) by {
                        assert forall|k2: usize| #[trigger]
                            self.ledger().contains_key(k2) implies self.index_mappings@.contains_key(
                            self.ledger()[k2].order_id,
                        ) && self.index_mappings@[self.ledger()[k2].order_id] == k2 by {
                            assert(spre.ledger().contains_key(k2));
                            assert(spre.index_mappings@[spre.ledger()[k2].order_id] == k2);
                            assert(spre.index_mappings@[rest.order_id] == k);
                            assert(self.ledger()[k2].order_id != rest.order_id);
                        }
                        assert forall|id: u64| #[trigger]
                            self.index_mappings@.contains_key(id) implies self.ledger().contains_key(
                            self.index_mappings@[id],
                        ) && self.ledger()[self.index_mappings@[id]].order_id == id by {
                            assert(spre.index_mappings@.contains_key(id));
                            assert(spre.ledger().contains_key(spre.index_mappings@[id]));
                            if spre.index_mappings@[id] == k {
                                assert(id == rest.order_id);
                                assert(false);
                            }
                        }
                    }
                }
                assert(self.side_queues_ok(osd)) by {
                    lemma_side_queues_untouched(spre, *self, osd);
                }
                assert(self.side_queues_ok(ms)) by {
                    lemma_side_queues_untouched(spre, *self, ms);
                }

                // the new fill names the popped resting order, which already
                // rested at this tick when the traversal began
                let newf = fills@.last();
                assert(newf.resting_order_id == rest.order_id);
                assert(fill_consumes_resting(*old(self), ms, newf)) by {
                    assert(spre.ledger().contains_key(k));
                    assert(old(self).ledger().contains_key(k) && entry_shrunk(
                        spre.ledger()[k],
                        old(self).ledger()[k],
                    ));
                    assert(old(self).ledger()[k].order_id == newf.resting_order_id);
                    assert(old(self).ledger()[k].price == newf.price);
                    assert(newf.quantity as int <= old(self).ledger()[k].quantity as int);
                }
                assert forall|n: int|
                    f0.len() <= n < fills@.len() implies #[trigger] fill_consumes_resting(
                    *old(self),
                    ms,
                    fills@[n],
                ) by {
                    if n < fills@.len() - 1 {
                        assert(fills@[n] == fpre[n]);
                        assert(fill_consumes_resting(*old(self), ms, fpre[n]));
                    }
                }
                // every earlier fill in this level fully consumed its order,
                // whose id left the mapping, while the popped order's id is
                // still mapped: the resting ids are pairwise distinct
                assert(spre.index_mappings@.contains_key(rest.order_id)) by {
                    assert(spre.ledger().contains_key(k));
                }
                if aggressive_order.quantity > 0 {
                    assert forall|n: int|
                        f0.len() <= n < fills@.len() implies !self.index_mappings@.contains_key(
                        (#[trigger] fills@[n]).resting_order_id,
                    ) by {
                        if n < fills@.len() - 1 {
                            assert(fills@[n] == fpre[n]);
                            assert(!spre.index_mappings@.contains_key(fpre[n].resting_order_id));
                        } else {
                            assert(rest.quantity <= apre.quantity);
                        }
                    }
                }
                assert forall|a: int, b: int|
                    f0.len() <= a < b < fills@.len() implies (#[trigger] fills@[a]).resting_order_id
                    != (#[trigger] fills@[b]).resting_order_id by {
                    if b < fills@.len() - 1 {
                        assert(fills@[a] == fpre[a]);
                        assert(fills@[b] == fpre[b]);
                        assert(fpre[a].resting_order_id != fpre[b].resting_order_id);
                    } else {
                        assert(fills@[a] == fpre[a]);
                        assert(!spre.index_mappings@.contains_key(fpre[a].resting_order_id));
                    }
                }
            }
        }

        let ghost s1 = *self;
        let ghost qexit = q@;
        let ghost qbuf = q;
        match aggressive_order.order_side {
            OrderSide::Buy => core::mem::swap(&mut self.asks[i], &mut q),
            OrderSide::Sell => core::mem::swap(&mut self.bids[i], &mut q),
        }
        let ghost s2 = *self;
        proof {
            assert(s2.queue_at(ms, i as int) == qexit);
            assert(s2.order_ledger == s1.order_ledger);
            assert(s2.queues_of(osd) == s1.queues_of(osd));
            assert forall|n: int|
                0 <= n < s1.levels() && n != i as int implies s2.queues_of(ms)[n]
                == s1.queues_of(ms)[n] by {}
        }
        let level_now_empty = match aggressive_order.order_side {
            OrderSide::Buy => self.asks[i].is_empty(),
            OrderSide::Sell => self.bids[i].is_empty(),
        };
        if level_now_empty {
            let cleared = match aggressive_order.order_side {
                OrderSide::Buy => self.active_asks.clear(i),
                OrderSide::Sell => self.active_bids.clear(i),
            };
            proof {
                assert(cleared is Ok);
            }
        }
        proof {
            let lvl = old(self).level_qty(ms, i as int);
            let consumed = agg0.quantity - aggressive_order.quantity;

            // the transferred quantity is the smaller of aggressor and level
            assert forall|j: int|
                0 <= j < qexit.len() implies entry_qty(self.ledger(), #[trigger] qexit[j])
                >= 0 by {
                assert(s1.entry_ok(ms, i as int, qexit[j]));
            }
            lemma_queue_qty_nonneg(self.ledger(), qexit);
            assert(queue_qty(self.ledger(), qexit) == lvl - consumed);
            if qexit.len() == 0 {
                assert(queue_qty(self.ledger(), qexit) == 0);
                assert(consumed == lvl);
            } else {
                assert(aggressive_order.quantity == 0);
                assert(consumed == agg0.quantity);
            }
            assert(consumed == min_qty(agg0.quantity as int, lvl));
            assert(self.level_qty(ms, i as int) == lvl - consumed);
            assert(queue_suffix_of(self.queue_at(ms, i as int), q0)) by {
                let skw = q0.len() - qexit.len();
                assert(self.queue_at(ms, i as int) == q0.skip(skw as int));
            }

            // the core invariants hold of the reassembled book
            assert(self.shape_ok()) by {
                assert forall|n: int|
                    0 <= n < self.levels() implies (#[trigger] self.bids@[n]).wf()
                    && self.bids@[n].capacity() == self.config.queue_size by {
                    if ms == OrderSide::Buy && n == i as int {
                        assert(self.bids@[n] == qbuf);
                    } else {
                        assert(self.bids@[n] == s1.bids@[n]);
                    }
                }
                assert forall|n: int|
                    0 <= n < self.levels() implies (#[trigger] self.asks@[n]).wf()
                    && self.asks@[n].capacity() == self.config.queue_size by {
                    if ms == OrderSide::Sell && n == i as int {
                        assert(self.asks@[n] == qbuf);
                    } else {
                        assert(self.asks@[n] == s1.asks@[n]);
                    }
                }
            }
            assert(self.side_queues_ok(osd)) by {
                lemma_side_queues_untouched(s1, *self, osd);
            }
            assert(self.side_queues_ok(ms)) by {
                assert forall|i2: int, j: int|
                    0 <= i2 < self.levels() && 0 <= j < self.queue_at(ms, i2).len() implies self.entry_ok(
                    ms,
                    i2,
                    #[trigger] self.queue_at(ms, i2)[j],
                ) by {
                    if i2 == i as int {
                        assert(self.queue_at(ms, i2) == qexit);
                        assert(s1.entry_ok(ms, i as int, qexit[j]));
                    } else {
                        assert(self.queue_at(ms, i2) == s1.queue_at(ms, i2));
                        assert(s1.entry_ok(ms, i2, s1.queue_at(ms, i2)[j]));
                    }
                }
                assert forall|i2: int, j1: int, j2: int|
                    0 <= i2 < self.levels() && 0 <= j1 < j2 < self.queue_at(ms, i2).len() implies #[trigger] self.queue_at(
                    ms,
                    i2,
                )[j1] != #[trigger] self.queue_at(ms, i2)[j2] by {
                    if i2 == i as int {
                        assert(self.queue_at(ms, i2) == qexit);
                    } else {
                        assert(self.queue_at(ms, i2) == s1.queue_at(ms, i2));
                        assert(s1.queue_at(ms, i2)[j1] != s1.queue_at(ms, i2)[j2]);
                    }
                }
            }
            assert(self.ledger_in_queues()) by {
                assert forall|k2: usize| #[trigger] self.ledger().contains_key(k2) implies {
                    &&& 0 <= (self.ledger()[k2].price as int) < self.levels()
                    &&& self.queue_at(self.ledger()[k2].order_side, self.ledger()[k2].price as int)
                        .contains(k2)
                } by {
                    assert(s1.ledger().contains_key(k2));
                    let o = self.ledger()[k2];
                    if o.order_side == ms && o.price as int == i as int {
                        assert(qexit.contains(k2));
                        assert(self.queue_at(o.order_side, o.price as int) == qexit);
                    } else {
                        assert(s1.queue_at(o.order_side, o.price as int).contains(k2));
                        assert(self.queue_at(o.order_side, o.price as int) == s1.queue_at(
                            o.order_side,
                            o.price as int,
                        ));
                    }
                }
            }
            assert(self.active_ok()) by {
                assert forall|n: int| #[trigger]
                    self.active_of(ms).spec_is_set(n) <==> (0 <= n < self.levels()
                    && self.queue_at(ms, n).len() > 0) by {
                    if n == i as int {
                        if level_now_empty {
                            assert(!self.active_of(ms).spec_is_set(n));
                            assert(self.queue_at(ms, n).len() == 0);
                        } else {
                            assert(self.queue_at(ms, n).len() > 0);
                            assert(qexit.len() > 0);
                            assert(q0.len() > 0);
                            assert(old(self).active_of(ms).spec_is_set(n)) by {
                                lemma_active_iff(*old(self), ms, n);
                            }
                            assert(self.active_of(ms).spec_is_set(n));
                        }
                    } else {
                        assert(self.active_of(ms).spec_is_set(n) == old(self).active_of(
                            ms,
                        ).spec_is_set(n));
                        assert(0 <= n < self.levels() ==> self.queue_at(ms, n) == old(self).queue_at(ms, n));
                        assert(old(self).active_of(ms).spec_is_set(n) <==> (0 <= n
                            < old(self).levels() && old(self).queue_at(ms, n).len() > 0)) by {
                            lemma_active_iff(*old(self), ms, n);
                        }
                    }
                }
                assert forall|n: int| #[trigger]
                    self.active_of(osd).spec_is_set(n) <==> (0 <= n < self.levels()
                    && self.queue_at(osd, n).len() > 0) by {
                    assert(self.active_of(osd) == old(self).active_of(osd));
                    assert(0 <= n < self.levels() ==> self.queue_at(osd, n) == old(self).queue_at(osd, n));
                    assert(old(self).active_of(osd).spec_is_set(n) <==> (0 <= n < old(self).levels() && old(self).queue_at(osd, n).len() > 0)) by {
                        lemma_active_iff(*old(self), osd, n);
                    }
                }
                lemma_active_ok_from_sides(*self, osd);
            }
            assert(fills@.subrange(0, f0.len() as int) == f0);
        }
    }


    /// The traversal heart: matches the aggressive order against the
    /// opposite side's resting liquidity over the ticks
    /// `start_index..=end_index`, walking asks upward for a buyer and bids
    /// downward for a seller, skipping inactive levels through the bitset
    /// and starting from the cached best price. Exactly
    /// `min(aggressor quantity, available quantity in the range)` is
    /// transferred; the produced fills carry the aggressor's id, lie within
    /// the range, and their prices are non-decreasing for a buyer and
    /// non-increasing for a seller. The trade history is not touched here;
    /// the callers append the returned fills. Never fails.
    #[verifier::loop_isolation(false)]
    #[verifier::rlimit(100)]
    pub fn match_order_against_book(
        &mut self,
        aggressive_order: &mut Order,
        start_index: usize,
        end_index: usize,
    ) -> (r: Result<Vec<OrderFill>, OrderBookError>)
        requires
            old(self).wf(),
            start_index <= end_index,
            (end_index as int) < old(self).levels(),
            old(aggressive_order).quantity >= 0,
        ensures
            r is Ok,
            final(self).wf(),
            match_outcome(
                *old(self),
                *final(self),
                *old(aggressive_order),
                *final(aggressive_order),
                (r->Ok_0)@,
                start_index as int,
                end_index as int,
            ),
            final(self).trade_history == old(self).trade_history,
    {
        let ghost agg0 = *old(aggressive_order);
        let ghost ms = agg0.order_side.spec_opposite();
        let ghost osd = agg0.order_side;
        let mut fills: Vec<OrderFill> = Vec::new();

        match aggressive_order.order_side {
            OrderSide::Buy => {
                // a buyer lifts asks, lowest tick first; nothing rests below
                // the cached best ask
                let lo = match self.best_ask_index {
                    Some(a) => if a > start_index {
                        a
                    } else {
                        start_index
                    },
                    None => start_index,
                };
                proof {
                    assert forall|n: int|
                        start_index as int <= n < lo as int implies #[trigger] old(self).queue_at(
                        ms,
                        n,
                    ).len() == 0 by {
                        lemma_active_iff(*old(self), ms, n);
                        if old(self).queue_at(ms, n).len() > 0 {
                            assert(old(self).active_asks.spec_is_set(n));
                        }
                    }
                    assert forall|n: int|
                        start_index as int <= n < lo as int implies #[trigger] old(self).level_qty(ms, n) == 0 by {
                        assert(old(self).queue_at(ms, n).len() == 0);
                    }
                    lemma_range_qty_zero(*old(self), ms, start_index as int, lo as int - 1);
                }
                if lo <= end_index {
                    let mut i = lo;
                    while i <= end_index && aggressive_order.quantity > 0
                        invariant
                            lo <= i <= end_index + 1,
                            self.core_ok(),
                            self.config == old(self).config,
                            self.trade_history == old(self).trade_history,
                            self.best_bid_index == old(self).best_bid_index,
                            self.best_ask_index == old(self).best_ask_index,
                            self.next_timestamp >= old(self).next_timestamp,
                            self.queues_of(OrderSide::Buy) == old(self).queues_of(
                                OrderSide::Buy,
                            ),
                            self.active_bids == old(self).active_bids,
                            forall|n: int| #[trigger]
                                self.active_asks.spec_is_set(n) ==> old(self).active_asks.spec_is_set(n),
                            forall|n: int|
                                0 <= n < old(self).levels() && !(lo as int <= n < i as int)
                                    ==> self.queues_of(OrderSide::Sell)[n] == old(self).queues_of(
                                    OrderSide::Sell,
                                )[n],
                            forall|n: int|
                                lo as int <= n < i as int ==> #[trigger] queue_suffix_of(
                                    self.queue_at(OrderSide::Sell, n),
                                    old(self).queue_at(OrderSide::Sell, n),
                                ),
                            aggressive_order.quantity >= 0,
                            *aggressive_order == (Order {
                                quantity: aggressive_order.quantity,
                                ..agg0
                            }),
                            fills_qty(fills@) == agg0.quantity - aggressive_order.quantity,
                            forall|n: int|
                                0 <= n < fills@.len() ==> {
                                    &&& (#[trigger] fills@[n]).aggressive_order_id
                                        == agg0.order_id
                                    &&& fills@[n].quantity > 0
                                    &&& lo as int <= (fills@[n].price as int) < i as int
                                },
                            forall|n: int|
                                0 <= n < fills@.len() ==> #[trigger] fill_consumes_resting(
                                    *old(self),
                                    OrderSide::Sell,
                                    fills@[n],
                                ),
                            forall|a: int, b: int|
                                0 <= a < b < fills@.len() ==> (#[trigger] fills@[a]).resting_order_id
                                    != (#[trigger] fills@[b]).resting_order_id,
                            fills_price_ascending(fills@),
                            aggressive_order.quantity > 0 ==> forall|n: int|
                                lo as int <= n < i as int ==> #[trigger] self.queue_at(
                                    OrderSide::Sell,
                                    n,
                                ).len() == 0,
                            old(self).range_qty(OrderSide::Sell, lo as int, end_index as int)
                                == fills_qty(fills@) + self.range_qty(
                                OrderSide::Sell,
                                lo as int,
                                end_index as int,
                            ),
                            forall|k: usize| #[trigger]
                                self.ledger().contains_key(k) ==> old(self).ledger().contains_key(k) && entry_shrunk(
                                    self.ledger()[k],
                                    old(self).ledger()[k],
                                ),
                            forall|k: usize|
                                #![trigger old(self).ledger().contains_key(k)]
                                old(self).ledger().contains_key(k) && !(old(self).ledger()[k].order_side == OrderSide::Sell && lo as int <= (old(self).ledger()[k].price as int) < i as int) ==> self.ledger().contains_key(
                                    k,
                                ) && self.ledger()[k] == old(self).ledger()[k],
                            forall|id: u64| #[trigger]
                                self.index_mappings@.contains_key(id) ==> old(self).index_mappings@.contains_key(id) && self.index_mappings@[id]
                                == old(self).index_mappings@[id],
                        decreases end_index + 1 - i,
                    {
                        let ghost pre = *self;
                        let ghost apre = *aggressive_order;
                        let ghost fpre = fills@;
                        let ghost lvl = pre.level_qty(OrderSide::Sell, i as int);
                        if self.active_asks.is_set(i) {
                            self.drain_level(i, aggressive_order, &mut fills);
                        } else {
                            proof {
                                lemma_active_iff(pre, OrderSide::Sell, i as int);
                                assert(pre.queue_at(OrderSide::Sell, i as int).len() == 0);
                                assert(lvl == 0);
                            }
                        }
                        proof {
                            let c = apre.quantity - aggressive_order.quantity;
                            assert(apre.order_side == OrderSide::Buy);
                            assert(apre.order_side.spec_opposite() == OrderSide::Sell);
                            assert(self.active_of(OrderSide::Sell) == self.active_asks);
                            assert(pre.active_of(OrderSide::Sell) == pre.active_asks);
                            assert(self.queues_of(OrderSide::Buy) == self.bids@);
                            assert(lvl >= 0) by {
                                assert forall|j: int|
                                    0 <= j < pre.queue_at(OrderSide::Sell, i as int).len() implies entry_qty(
                                    pre.ledger(),
                                    #[trigger] pre.queue_at(OrderSide::Sell, i as int)[j],
                                ) >= 0 by {
                                    assert(pre.entry_ok(
                                        OrderSide::Sell,
                                        i as int,
                                        pre.queue_at(OrderSide::Sell, i as int)[j],
                                    ));
                                }
                                lemma_queue_qty_nonneg(
                                    pre.ledger(),
                                    pre.queue_at(OrderSide::Sell, i as int),
                                );
                            }
                            assert(self.level_qty(OrderSide::Sell, i as int) == lvl - c);
                            assert(queue_suffix_of(
                                self.queue_at(OrderSide::Sell, i as int),
                                pre.queue_at(OrderSide::Sell, i as int),
                            )) by {
                                if self.queues_of(OrderSide::Sell)[i as int] == pre.queues_of(
                                    OrderSide::Sell,
                                )[i as int] {
                                    lemma_queue_suffix_refl(
                                        pre.queue_at(OrderSide::Sell, i as int),
                                    );
                                }
                            }
                            assert forall|n: int|
                                lo as int <= n < i as int + 1 implies #[trigger] queue_suffix_of(
                                self.queue_at(OrderSide::Sell, n),
                                old(self).queue_at(OrderSide::Sell, n),
                            ) by {
                                if n == i as int {
                                    assert(pre.queues_of(OrderSide::Sell)[n] == old(
                                        self,
                                    ).queues_of(OrderSide::Sell)[n]);
                                    assert(queue_suffix_of(
                                        self.queue_at(OrderSide::Sell, n),
                                        pre.queue_at(OrderSide::Sell, n),
                                    ));
                                } else {
                                    assert(queue_suffix_of(
                                        pre.queue_at(OrderSide::Sell, n),
                                        old(self).queue_at(OrderSide::Sell, n),
                                    ));
                                    assert(self.queues_of(OrderSide::Sell)[n] == pre.queues_of(
                                        OrderSide::Sell,
                                    )[n]);
                                }
                            }
                            lemma_match_range_step(
                                pre,
                                *self,
                                OrderSide::Sell,
                                lo as int,
                                i as int,
                                end_index as int,
                                c,
                            );
                            assert(fills@.subrange(0, fpre.len() as int) == fpre);
                            assert forall|n: int| 0 <= n < fpre.len() implies #[trigger] fills@[n]
                                == fpre[n] by {
                                assert(fpre[n] == fills@.subrange(0, fpre.len() as int)[n]);
                            }
                            assert forall|a: int, b: int|
                                0 <= a <= b < fills@.len() implies (#[trigger] fills@[a]).price
                                <= (#[trigger] fills@[b]).price by {
                                if b < fpre.len() as int {
                                    assert(fpre[a].price <= fpre[b].price);
                                } else if a < fpre.len() {
                                    assert((fpre[a].price as int) < i as int);
                                    assert(fills@[b].price as int == i as int);
                                } else {
                                    assert(fills@[a].price as int == i as int);
                                    assert(fills@[b].price as int == i as int);
                                }
                            }
                            assert forall|n: int|
                                0 <= n < fills@.len() implies #[trigger] fill_consumes_resting(
                                *old(self),
                                OrderSide::Sell,
                                fills@[n],
                            ) by {
                                if n < fpre.len() {
                                    assert(fill_consumes_resting(
                                        *old(self),
                                        OrderSide::Sell,
                                        fpre[n],
                                    ));
                                } else {
                                    assert(fill_consumes_resting(pre, OrderSide::Sell, fills@[n]));
                                    let kw = choose|k: usize|
                                        {
                                            &&& pre.ledger().contains_key(k)
                                            &&& pre.ledger()[k].order_id
                                                == fills@[n].resting_order_id
                                            &&& pre.ledger()[k].order_side == OrderSide::Sell
                                            &&& pre.ledger()[k].price == fills@[n].price
                                            &&& fills@[n].quantity as int
                                                <= pre.ledger()[k].quantity as int
                                        };
                                    assert(pre.ledger().contains_key(kw));
                                    assert(old(self).ledger().contains_key(kw) && entry_shrunk(
                                        pre.ledger()[kw],
                                        old(self).ledger()[kw],
                                    ));
                                }
                            }
                            assert forall|a: int, b: int|
                                0 <= a < b < fills@.len() implies (#[trigger] fills@[a]).resting_order_id
                                != (#[trigger] fills@[b]).resting_order_id by {
                                if b < fpre.len() {
                                    assert(fpre[a].resting_order_id != fpre[b].resting_order_id);
                                } else if a < fpre.len() {
                                    if fills@[a].resting_order_id == fills@[b].resting_order_id {
                                        assert(fill_consumes_resting(
                                            *old(self),
                                            OrderSide::Sell,
                                            fills@[a],
                                        ));
                                        assert(fill_consumes_resting(
                                            *old(self),
                                            OrderSide::Sell,
                                            fills@[b],
                                        ));
                                        let ka = choose|k: usize|
                                            {
                                                &&& old(self).ledger().contains_key(k)
                                                &&& old(self).ledger()[k].order_id
                                                    == fills@[a].resting_order_id
                                                &&& old(self).ledger()[k].order_side
                                                    == OrderSide::Sell
                                                &&& old(self).ledger()[k].price == fills@[a].price
                                                &&& fills@[a].quantity as int <= old(
                                                    self,
                                                ).ledger()[k].quantity as int
                                            };
                                        let kb = choose|k: usize|
                                            {
                                                &&& old(self).ledger().contains_key(k)
                                                &&& old(self).ledger()[k].order_id
                                                    == fills@[b].resting_order_id
                                                &&& old(self).ledger()[k].order_side
                                                    == OrderSide::Sell
                                                &&& old(self).ledger()[k].price == fills@[b].price
                                                &&& fills@[b].quantity as int <= old(
                                                    self,
                                                ).ledger()[k].quantity as int
                                            };
                                        assert(old(self).index_mappings@[old(
                                            self,
                                        ).ledger()[ka].order_id] == ka);
                                        assert(old(self).index_mappings@[old(
                                            self,
                                        ).ledger()[kb].order_id] == kb);
                                        assert(ka == kb);
                                        assert((fpre[a].price as int) < i as int);
                                        assert(fills@[b].price as int == i as int);
                                        assert(false);
                                    }
                                }
                            }
                            if aggressive_order.quantity > 0 {
                                assert forall|n: int|
                                    lo as int <= n < i as int + 1 implies #[trigger] self.queue_at(
                                    OrderSide::Sell,
                                    n,
                                ).len() == 0 by {
                                    if n < i as int {
                                        assert(pre.queue_at(OrderSide::Sell, n).len() == 0);
                                        assert(self.queues_of(OrderSide::Sell)[n]
                                            == pre.queues_of(OrderSide::Sell)[n]);
                                    } else {
                                        assert(self.level_qty(OrderSide::Sell, n) == 0);
                                        if self.queue_at(OrderSide::Sell, n).len() > 0 {
                                            assert forall|j: int|
                                                0 <= j < self.queue_at(
                                                    OrderSide::Sell,
                                                    n,
                                                ).len() implies entry_qty(
                                                self.ledger(),
                                                #[trigger] self.queue_at(OrderSide::Sell, n)[j],
                                            ) > 0 by {
                                                assert(self.entry_ok(
                                                    OrderSide::Sell,
                                                    n,
                                                    self.queue_at(OrderSide::Sell, n)[j],
                                                ));
                                            }
                                            lemma_queue_qty_pos(
                                                self.ledger(),
                                                self.queue_at(OrderSide::Sell, n),
                                            );
                                        }
                                    }
                                }
                            }
                        }
                        i += 1;
                    }
                    proof {
                        lemma_range_qty_split(
                            *old(self),
                            ms,
                            start_index as int,
                            lo as int - 1,
                            end_index as int,
                        );
                        if aggressive_order.quantity > 0 {
                            assert(i == end_index + 1);
                            assert forall|n: int|
                                lo as int <= n <= end_index as int implies #[trigger] self.level_qty(
                                OrderSide::Sell,
                                n,
                            ) == 0 by {
                                assert(self.queue_at(OrderSide::Sell, n).len() == 0);
                            }
                            lemma_range_qty_zero(
                                *self,
                                OrderSide::Sell,
                                lo as int,
                                end_index as int,
                            );
                        } else {
                            lemma_range_qty_nonneg(
                                *self,
                                OrderSide::Sell,
                                lo as int,
                                end_index as int,
                            );
                        }
                        // the untouched prefix of the range is still empty
                        assert forall|n: int|
                            start_index as int <= n < lo as int implies #[trigger] self.level_qty(
                            ms,
                            n,
                        ) == 0 && self.queue_at(ms, n).len() == 0 by {
                            assert(self.queues_of(ms)[n] == old(self).queues_of(ms)[n]);
                            assert(old(self).queue_at(ms, n).len() == 0);
                        }
                        lemma_range_qty_zero(*self, ms, start_index as int, lo as int - 1);
                        lemma_range_qty_split(
                            *self,
                            ms,
                            start_index as int,
                            lo as int - 1,
                            end_index as int,
                        );
                        if aggressive_order.quantity > 0 {
                            assert forall|n: int|
                                start_index as int <= n <= end_index as int implies #[trigger] self.queue_at(
                                ms,
                                n,
                            ).len() == 0 by {
                                if n < lo as int {
                                    assert(self.queues_of(ms)[n] == old(self).queues_of(ms)[n]);
                                    assert(old(self).queue_at(ms, n).len() == 0);
                                } else {
                                    assert(self.queue_at(OrderSide::Sell, n).len() == 0);
                                }
                            }
                        }
                        assert(ms == OrderSide::Sell);
                        assert forall|n: int|
                            start_index as int <= n <= end_index as int implies #[trigger] queue_suffix_of(
                            self.queue_at(ms, n),
                            old(self).queue_at(ms, n),
                        ) by {
                            if n < lo as int || n >= i as int {
                                assert(self.queues_of(ms)[n] == old(self).queues_of(ms)[n]);
                                lemma_queue_suffix_refl(old(self).queue_at(ms, n));
                            } else {
                                assert(queue_suffix_of(
                                    self.queue_at(OrderSide::Sell, n),
                                    old(self).queue_at(OrderSide::Sell, n),
                                ));
                            }
                        }
                        lemma_bid_bound_shrink(*old(self), *self);
                        lemma_ask_bound_shrink(*old(self), *self);
                    }
                    return Ok(fills);
                } else {
                    proof {
                        assert forall|n: int|
                            start_index as int <= n <= end_index as int implies #[trigger] old(self).level_qty(ms, n) == 0 by {
                            assert(old(self).queue_at(ms, n).len() == 0);
                        }
                        lemma_range_qty_zero(
                            *old(self),
                            ms,
                            start_index as int,
                            end_index as int,
                        );
                        assert forall|n: int|
                            start_index as int <= n <= end_index as int implies #[trigger] self.queue_at(
                            ms,
                            n,
                        ).len() == 0 by {
                            assert(old(self).queue_at(ms, n).len() == 0);
                        }
                        assert forall|n: int|
                            start_index as int <= n <= end_index as int implies #[trigger] queue_suffix_of(
                            self.queue_at(ms, n),
                            old(self).queue_at(ms, n),
                        ) by {
                            lemma_queue_suffix_refl(old(self).queue_at(ms, n));
                        }
                        lemma_bid_bound_shrink(*old(self), *self);
                        lemma_ask_bound_shrink(*old(self), *self);
                    }
                    return Ok(fills);
                }
            }
            OrderSide::Sell => {
                // a seller hits bids, highest tick first; nothing rests
                // above the cached best bid
                let hi = match self.best_bid_index {
                    Some(b) => if b < end_index {
                        b
                    } else {
                        end_index
                    },
                    None => end_index,
                };
                proof {
                    assert forall|n: int|
                        (hi as int) < n <= end_index as int implies #[trigger] old(self).queue_at(
                        ms,
                        n,
                    ).len() == 0 by {
                        lemma_active_iff(*old(self), ms, n);
                        if old(self).queue_at(ms, n).len() > 0 {
                            assert(old(self).active_bids.spec_is_set(n));
                        }
                    }
                    assert forall|n: int|
                        (hi as int) < n <= end_index as int implies #[trigger] old(self).level_qty(
                        ms,
                        n,
                    ) == 0 by {
                        assert(old(self).queue_at(ms, n).len() == 0);
                    }
                    lemma_range_qty_zero(*old(self), ms, hi as int + 1, end_index as int);
                }
                if hi >= start_index {
                    let mut j = hi + 1;
                    while j > start_index && aggressive_order.quantity > 0
                        invariant
                            start_index <= j <= hi + 1,
                            hi <= end_index,
                            self.core_ok(),
                            self.config == old(self).config,
                            self.trade_history == old(self).trade_history,
                            self.best_bid_index == old(self).best_bid_index,
                            self.best_ask_index == old(self).best_ask_index,
                            self.next_timestamp >= old(self).next_timestamp,
                            self.queues_of(OrderSide::Sell) == old(self).queues_of(
                                OrderSide::Sell,
                            ),
                            self.active_asks == old(self).active_asks,
                            forall|n: int| #[trigger]
                                self.active_bids.spec_is_set(n) ==> old(self).active_bids.spec_is_set(n),
                            forall|n: int|
                                0 <= n < old(self).levels() && !(j as int <= n <= hi as int)
                                    ==> self.queues_of(OrderSide::Buy)[n] == old(self).queues_of(
                                    OrderSide::Buy,
                                )[n],
                            forall|n: int|
                                j as int <= n <= hi as int ==> #[trigger] queue_suffix_of(
                                    self.queue_at(OrderSide::Buy, n),
                                    old(self).queue_at(OrderSide::Buy, n),
                                ),
                            aggressive_order.quantity >= 0,
                            *aggressive_order == (Order {
                                quantity: aggressive_order.quantity,
                                ..agg0
                            }),
                            fills_qty(fills@) == agg0.quantity - aggressive_order.quantity,
                            forall|n: int|
                                0 <= n < fills@.len() ==> {
                                    &&& (#[trigger] fills@[n]).aggressive_order_id
                                        == agg0.order_id
                                    &&& fills@[n].quantity > 0
                                    &&& j as int <= (fills@[n].price as int) <= hi as int
                                },
                            forall|n: int|
                                0 <= n < fills@.len() ==> #[trigger] fill_consumes_resting(
                                    *old(self),
                                    OrderSide::Buy,
                                    fills@[n],
                                ),
                            forall|a: int, b: int|
                                0 <= a < b < fills@.len() ==> (#[trigger] fills@[a]).resting_order_id
                                    != (#[trigger] fills@[b]).resting_order_id,
                            fills_price_descending(fills@),
                            aggressive_order.quantity > 0 ==> forall|n: int|
                                j as int <= n <= hi as int ==> #[trigger] self.queue_at(
                                    OrderSide::Buy,
                                    n,
                                ).len() == 0,
                            old(self).range_qty(OrderSide::Buy, start_index as int, hi as int)
                                == fills_qty(fills@) + self.range_qty(
                                OrderSide::Buy,
                                start_index as int,
                                hi as int,
                            ),
                            forall|k: usize| #[trigger]
                                self.ledger().contains_key(k) ==> old(self).ledger().contains_key(k) && entry_shrunk(
                                    self.ledger()[k],
                                    old(self).ledger()[k],
                                ),
                            forall|k: usize|
                                #![trigger old(self).ledger().contains_key(k)]
                                old(self).ledger().contains_key(k) && !(old(self).ledger()[k].order_side == OrderSide::Buy && j as int <= (old(self).ledger()[k].price as int) <= hi as int) ==> self.ledger().contains_key(
                                    k,
                                ) && self.ledger()[k] == old(self).ledger()[k],
                            forall|id: u64| #[trigger]
                                self.index_mappings@.contains_key(id) ==> old(self).index_mappings@.contains_key(id) && self.index_mappings@[id]
                                == old(self).index_mappings@[id],
                        decreases j,
                    {
                        let cur = j - 1;
                        let ghost pre = *self;
                        let ghost apre = *aggressive_order;
                        let ghost fpre = fills@;
                        let ghost lvl = pre.level_qty(OrderSide::Buy, cur as int);
                        if self.active_bids.is_set(cur) {
                            self.drain_level(cur, aggressive_order, &mut fills);
                        } else {
                            proof {
                                lemma_active_iff(pre, OrderSide::Buy, cur as int);
                                assert(pre.queue_at(OrderSide::Buy, cur as int).len() == 0);
                                assert(lvl == 0);
                            }
                        }
                        proof {
                            let c = apre.quantity - aggressive_order.quantity;
                            assert(apre.order_side == OrderSide::Sell);
                            assert(apre.order_side.spec_opposite() == OrderSide::Buy);
                            assert(self.active_of(OrderSide::Buy) == self.active_bids);
                            assert(pre.active_of(OrderSide::Buy) == pre.active_bids);
                            assert(self.queues_of(OrderSide::Sell) == self.asks@);
                            assert(lvl >= 0) by {
                                assert forall|j: int|
                                    0 <= j < pre.queue_at(OrderSide::Buy, cur as int).len() implies entry_qty(
                                    pre.ledger(),
                                    #[trigger] pre.queue_at(OrderSide::Buy, cur as int)[j],
                                ) >= 0 by {
                                    assert(pre.entry_ok(
                                        OrderSide::Buy,
                                        cur as int,
                                        pre.queue_at(OrderSide::Buy, cur as int)[j],
                                    ));
                                }
                                lemma_queue_qty_nonneg(
                                    pre.ledger(),
                                    pre.queue_at(OrderSide::Buy, cur as int),
                                );
                            }
                            assert(self.level_qty(OrderSide::Buy, cur as int) == lvl - c);
                            assert(queue_suffix_of(
                                self.queue_at(OrderSide::Buy, cur as int),
                                pre.queue_at(OrderSide::Buy, cur as int),
                            )) by {
                                if self.queues_of(OrderSide::Buy)[cur as int] == pre.queues_of(
                                    OrderSide::Buy,
                                )[cur as int] {
                                    lemma_queue_suffix_refl(
                                        pre.queue_at(OrderSide::Buy, cur as int),
                                    );
                                }
                            }
                            assert forall|n: int|
                                cur as int <= n <= hi as int implies #[trigger] queue_suffix_of(
                                self.queue_at(OrderSide::Buy, n),
                                old(self).queue_at(OrderSide::Buy, n),
                            ) by {
                                if n == cur as int {
                                    assert(pre.queues_of(OrderSide::Buy)[n] == old(
                                        self,
                                    ).queues_of(OrderSide::Buy)[n]);
                                    assert(queue_suffix_of(
                                        self.queue_at(OrderSide::Buy, n),
                                        pre.queue_at(OrderSide::Buy, n),
                                    ));
                                } else {
                                    assert(queue_suffix_of(
                                        pre.queue_at(OrderSide::Buy, n),
                                        old(self).queue_at(OrderSide::Buy, n),
                                    ));
                                    assert(self.queues_of(OrderSide::Buy)[n] == pre.queues_of(
                                        OrderSide::Buy,
                                    )[n]);
                                }
                            }
                            lemma_match_range_step(
                                pre,
                                *self,
                                OrderSide::Buy,
                                start_index as int,
                                cur as int,
                                hi as int,
                                c,
                            );
                            assert(fills@.subrange(0, fpre.len() as int) == fpre);
                            assert forall|n: int| 0 <= n < fpre.len() implies #[trigger] fills@[n]
                                == fpre[n] by {
                                assert(fpre[n] == fills@.subrange(0, fpre.len() as int)[n]);
                            }
                            assert forall|a: int, b: int|
                                0 <= a <= b < fills@.len() implies (#[trigger] fills@[a]).price
                                >= (#[trigger] fills@[b]).price by {
                                if b < fpre.len() as int {
                                    assert(fpre[a].price >= fpre[b].price);
                                } else if a < fpre.len() {
                                    assert((fpre[a].price as int) >= j as int);
                                    assert(fills@[b].price as int == cur as int);
                                } else {
                                    assert(fills@[a].price as int == cur as int);
                                    assert(fills@[b].price as int == cur as int);
                                }
                            }
                            assert forall|n: int|
                                0 <= n < fills@.len() implies #[trigger] fill_consumes_resting(
                                *old(self),
                                OrderSide::Buy,
                                fills@[n],
                            ) by {
                                if n < fpre.len() {
                                    assert(fill_consumes_resting(
                                        *old(self),
                                        OrderSide::Buy,
                                        fpre[n],
                                    ));
                                } else {
                                    assert(fill_consumes_resting(pre, OrderSide::Buy, fills@[n]));
                                    let kw = choose|k: usize|
                                        {
                                            &&& pre.ledger().contains_key(k)
                                            &&& pre.ledger()[k].order_id
                                                == fills@[n].resting_order_id
                                            &&& pre.ledger()[k].order_side == OrderSide::Buy
                                            &&& pre.ledger()[k].price == fills@[n].price
                                            &&& fills@[n].quantity as int
                                                <= pre.ledger()[k].quantity as int
                                        };
                                    assert(pre.ledger().contains_key(kw));
                                    assert(old(self).ledger().contains_key(kw) && entry_shrunk(
                                        pre.ledger()[kw],
                                        old(self).ledger()[kw],
                                    ));
                                }
                            }
                            assert forall|a: int, b: int|
                                0 <= a < b < fills@.len() implies (#[trigger] fills@[a]).resting_order_id
                                != (#[trigger] fills@[b]).resting_order_id by {
                                if b < fpre.len() {
                                    assert(fpre[a].resting_order_id != fpre[b].resting_order_id);
                                } else if a < fpre.len() {
                                    if fills@[a].resting_order_id == fills@[b].resting_order_id {
                                        assert(fill_consumes_resting(
                                            *old(self),
                                            OrderSide::Buy,
                                            fills@[a],
                                        ));
                                        assert(fill_consumes_resting(
                                            *old(self),
                                            OrderSide::Buy,
                                            fills@[b],
                                        ));
                                        let ka = choose|k: usize|
                                            {
                                                &&& old(self).ledger().contains_key(k)
                                                &&& old(self).ledger()[k].order_id
                                                    == fills@[a].resting_order_id
                                                &&& old(self).ledger()[k].order_side
                                                    == OrderSide::Buy
                                                &&& old(self).ledger()[k].price == fills@[a].price
                                                &&& fills@[a].quantity as int <= old(
                                                    self,
                                                ).ledger()[k].quantity as int
                                            };
                                        let kb = choose|k: usize|
                                            {
                                                &&& old(self).ledger().contains_key(k)
                                                &&& old(self).ledger()[k].order_id
                                                    == fills@[b].resting_order_id
                                                &&& old(self).ledger()[k].order_side
                                                    == OrderSide::Buy
                                                &&& old(self).ledger()[k].price == fills@[b].price
                                                &&& fills@[b].quantity as int <= old(
                                                    self,
                                                ).ledger()[k].quantity as int
                                            };
                                        assert(old(self).index_mappings@[old(
                                            self,
                                        ).ledger()[ka].order_id] == ka);
                                        assert(old(self).index_mappings@[old(
                                            self,
                                        ).ledger()[kb].order_id] == kb);
                                        assert(ka == kb);
                                        assert((fpre[a].price as int) >= j as int);
                                        assert(fills@[b].price as int == cur as int);
                                        assert(false);
                                    }
                                }
                            }
                            if aggressive_order.quantity > 0 {
                                assert forall|n: int|
                                    cur as int <= n <= hi as int implies #[trigger] self.queue_at(
                                    OrderSide::Buy,
                                    n,
                                ).len() == 0 by {
                                    if n > cur as int {
                                        assert(pre.queue_at(OrderSide::Buy, n).len() == 0);
                                        assert(self.queues_of(OrderSide::Buy)[n]
                                            == pre.queues_of(OrderSide::Buy)[n]);
                                    } else {
                                        assert(self.level_qty(OrderSide::Buy, n) == 0);
                                        if self.queue_at(OrderSide::Buy, n).len() > 0 {
                                            assert forall|jx: int|
                                                0 <= jx < self.queue_at(
                                                    OrderSide::Buy,
                                                    n,
                                                ).len() implies entry_qty(
                                                self.ledger(),
                                                #[trigger] self.queue_at(OrderSide::Buy, n)[jx],
                                            ) > 0 by {
                                                assert(self.entry_ok(
                                                    OrderSide::Buy,
                                                    n,
                                                    self.queue_at(OrderSide::Buy, n)[jx],
                                                ));
                                            }
                                            lemma_queue_qty_pos(
                                                self.ledger(),
                                                self.queue_at(OrderSide::Buy, n),
                                            );
                                        }
                                    }
                                }
                            }
                        }
                        j = cur;
                    }
                    proof {
                        lemma_range_qty_split(
                            *old(self),
                            ms,
                            start_index as int,
                            hi as int,
                            end_index as int,
                        );
                        if aggressive_order.quantity > 0 {
                            assert(j == start_index);
                            assert forall|n: int|
                                start_index as int <= n <= hi as int implies #[trigger] self.level_qty(
                                OrderSide::Buy,
                                n,
                            ) == 0 by {
                                assert(self.queue_at(OrderSide::Buy, n).len() == 0);
                            }
                            lemma_range_qty_zero(
                                *self,
                                OrderSide::Buy,
                                start_index as int,
                                hi as int,
                            );
                        } else {
                            lemma_range_qty_nonneg(
                                *self,
                                OrderSide::Buy,
                                start_index as int,
                                hi as int,
                            );
                        }
                        assert forall|n: int|
                            (hi as int) < n <= end_index as int implies #[trigger] self.level_qty(
                            ms,
                            n,
                        ) == 0 && self.queue_at(ms, n).len() == 0 by {
                            assert(self.queues_of(ms)[n] == old(self).queues_of(ms)[n]);
                            assert(old(self).queue_at(ms, n).len() == 0);
                        }
                        lemma_range_qty_zero(*self, ms, hi as int + 1, end_index as int);
                        lemma_range_qty_split(
                            *self,
                            ms,
                            start_index as int,
                            hi as int,
                            end_index as int,
                        );
                        if aggressive_order.quantity > 0 {
                            assert forall|n: int|
                                start_index as int <= n <= end_index as int implies #[trigger] self.queue_at(
                                ms,
                                n,
                            ).len() == 0 by {
                                if n > hi as int {
                                    assert(self.queues_of(ms)[n] == old(self).queues_of(ms)[n]);
                                    assert(old(self).queue_at(ms, n).len() == 0);
                                } else {
                                    assert(self.queue_at(OrderSide::Buy, n).len() == 0);
                                }
                            }
                        }
                        assert(ms == OrderSide::Buy);
                        assert forall|n: int|
                            start_index as int <= n <= end_index as int implies #[trigger] queue_suffix_of(
                            self.queue_at(ms, n),
                            old(self).queue_at(ms, n),
                        ) by {
                            if n > hi as int || n < j as int {
                                assert(self.queues_of(ms)[n] == old(self).queues_of(ms)[n]);
                                lemma_queue_suffix_refl(old(self).queue_at(ms, n));
                            } else {
                                assert(queue_suffix_of(
                                    self.queue_at(OrderSide::Buy, n),
                                    old(self).queue_at(OrderSide::Buy, n),
                                ));
                            }
                        }
                        lemma_bid_bound_shrink(*old(self), *self);
                        lemma_ask_bound_shrink(*old(self), *self);
                    }
                    return Ok(fills);
                } else {
                    proof {
                        assert forall|n: int|
                            start_index as int <= n <= end_index as int implies #[trigger] old(self).level_qty(ms, n) == 0 by {
                            assert(old(self).queue_at(ms, n).len() == 0);
                        }
                        lemma_range_qty_zero(
                            *old(self),
                            ms,
                            start_index as int,
                            end_index as int,
                        );
                        assert forall|n: int|
                            start_index as int <= n <= end_index as int implies #[trigger] self.queue_at(
                            ms,
                            n,
                        ).len() == 0 by {
                            assert(old(self).queue_at(ms, n).len() == 0);
                        }
                        assert forall|n: int|
                            start_index as int <= n <= end_index as int implies #[trigger] queue_suffix_of(
                            self.queue_at(ms, n),
                            old(self).queue_at(ms, n),
                        ) by {
                            lemma_queue_suffix_refl(old(self).queue_at(ms, n));
                        }
                        lemma_bid_bound_shrink(*old(self), *self);
                        lemma_ask_bound_shrink(*old(self), *self);
                    }
                    return Ok(fills);
                }
            }
        }
    }


    /// Rests the unfilled remainder of a limit order: marks it `Active` (or
    /// `PartiallyFilled` when fills were produced), raises the best-price
    /// cache, sets the tick's active bit, stores the order in the ledger,
    /// queues its index at the back of its side's queue at its tick, and
    /// records its id. Only limit orders may rest; a saturated level fails
    /// with `FullRingBuffer` and rests nothing.
    #[verifier::rlimit(60)]
    pub fn rest_remaining_limit_order(&mut self, order: Order, partially_filled: bool) -> (r:
        Result<(), OrderBookError>)
        requires
            old(self).wf(),
            (order.price as int) < old(self).levels(),
            order.quantity > 0,
            !old(self).index_mappings@.contains_key(order.order_id),
        ensures
            rest_outcome(*old(self), *final(self), order, partially_filled, r),
    {
        if !matches!(order.order_type, OrderType::Limit) {
            return Err(OrderBookError::NonLimitOrderRestAttempt);
        }

        let price_index = order.price as usize;
        let rested = Order {
            order_status: if partially_filled {
                OrderStatus::PartiallyFilled
            } else {
                OrderStatus::Active
            },
            ..order
        };

        match order.order_side {
            OrderSide::Buy => {
                if self.bids[price_index].is_full() {
                    return Err(OrderBookError::FullRingBuffer);
                }
                let _raised = self.recalculate_best_bid(order.price);
                let sb = self.active_bids.set(price_index);
                proof {
                    assert(sb is Ok);
                }
                let order_index = slab_insert(&mut self.order_ledger, rested);
                let pb = self.bids[price_index].push_back(order_index);
                proof {
                    assert(pb is Ok);
                }
                self.index_mappings.insert(order.order_id, order_index);
                proof {
                    lemma_rest_wrapup(*old(self), *self, order, rested, order_index);
                }
            }
            OrderSide::Sell => {
                if self.asks[price_index].is_full() {
                    return Err(OrderBookError::FullRingBuffer);
                }
                let _lowered = self.recalculate_best_ask(order.price);
                let sa = self.active_asks.set(price_index);
                proof {
                    assert(sa is Ok);
                }
                let order_index = slab_insert(&mut self.order_ledger, rested);
                let pb = self.asks[price_index].push_back(order_index);
                proof {
                    assert(pb is Ok);
                }
                self.index_mappings.insert(order.order_id, order_index);
                proof {
                    lemma_rest_wrapup(*old(self), *self, order, rested, order_index);
                }
            }
        }

        Ok(())
    }


    /// Whether the book holds enough opposite-side liquidity within the
    /// order's limit to fill it completely: for a buyer, the asks at ticks
    /// up to the order's price; for a seller, the bids at ticks from the
    /// order's price up. Sums resting quantities, stopping as soon as the
    /// order's quantity is reached; mutates nothing. Used by the
    /// fill-or-kill precheck.
    #[verifier::loop_isolation(false)]
    #[verifier::rlimit(60)]
    pub fn can_fill_completely(&mut self, order: &Order) -> (r: Result<bool, OrderBookError>)
        requires
            old(self).wf(),
            (order.price as int) < old(self).levels(),
            order.quantity >= 0,
        ensures
            *final(self) == *old(self),
            ({
                let avail = match order.order_side {
                    OrderSide::Buy => old(self).range_qty(OrderSide::Sell, 0, order.price as int),
                    OrderSide::Sell => old(self).range_qty(
                        OrderSide::Buy,
                        order.price as int,
                        old(self).levels() - 1,
                    ),
                };
                r == Ok::<bool, OrderBookError>(avail >= order.quantity)
            }),
    {
        if order.quantity == 0 {
            proof {
                match order.order_side {
                    OrderSide::Buy => {
                        lemma_range_qty_nonneg(*self, OrderSide::Sell, 0, order.price as int);
                    }
                    OrderSide::Sell => {
                        lemma_range_qty_nonneg(
                            *self,
                            OrderSide::Buy,
                            order.price as int,
                            self.levels() - 1,
                        );
                    }
                }
            }
            return Ok(true);
        }
        let mut available: u64 = 0;

        match order.order_side {
            OrderSide::Buy => {
                let mut i: usize = 0;
                while i <= order.price as usize
                    invariant
                        i <= order.price as usize + 1,
                        available == self.range_qty(OrderSide::Sell, 0, i as int - 1),
                        available < order.quantity as u64,
                    decreases order.price as usize + 1 - i,
                {
                    let ghost q = self.queue_at(OrderSide::Sell, i as int);
                    let q_len = self.asks[i].len();
                    let mut j: usize = 0;
                    while j < q_len
                        invariant
                            j <= q_len,
                            q_len == q.len(),
                            available == self.range_qty(OrderSide::Sell, 0, i as int - 1)
                                + queue_qty(self.ledger(), q.subrange(0, j as int)),
                            available < order.quantity as u64,
                        decreases q_len - j,
                    {
                        let k = self.asks[i].get(j);
                        proof {
                            assert(self.entry_ok(OrderSide::Sell, i as int, k));
                        }
                        let o = slab_get_copy(&self.order_ledger, k);
                        proof {
                            assert(q.subrange(0, j as int + 1) =~= q.subrange(
                                0,
                                j as int,
                            ).push(k));
                            lemma_queue_qty_push(self.ledger(), q.subrange(0, j as int), k);
                        }
                        available = available + o.quantity as u64;
                        if available >= order.quantity as u64 {
                            proof {
                                lemma_prefix_reaches(
                                    *self,
                                    OrderSide::Sell,
                                    0,
                                    i as int,
                                    order.price as int,
                                    j as int + 1,
                                );
                                assert(self.range_qty(OrderSide::Sell, 0, order.price as int)
                                    >= available);
                            }
                            return Ok(true);
                        }
                        j += 1;
                    }
                    proof {
                        assert(q.subrange(0, q.len() as int) =~= q);
                        lemma_range_qty_split(*self, OrderSide::Sell, 0, i as int - 1, i as int);
                        lemma_range_qty_single(*self, OrderSide::Sell, i as int);
                    }
                    i += 1;
                }
                Ok(false)
            }
            OrderSide::Sell => {
                let levels = self.bids.len();
                let mut jx: usize = levels;
                while jx > order.price as usize
                    invariant
                        order.price as usize <= jx <= levels,
                        available == self.range_qty(OrderSide::Buy, jx as int, levels as int - 1),
                        available < order.quantity as u64,
                    decreases jx,
                {
                    let i = jx - 1;
                    let ghost q = self.queue_at(OrderSide::Buy, i as int);
                    let q_len = self.bids[i].len();
                    let mut j: usize = 0;
                    while j < q_len
                        invariant
                            j <= q_len,
                            q_len == q.len(),
                            available == self.range_qty(
                                OrderSide::Buy,
                                jx as int,
                                levels as int - 1,
                            ) + queue_qty(self.ledger(), q.subrange(0, j as int)),
                            available < order.quantity as u64,
                        decreases q_len - j,
                    {
                        let k = self.bids[i].get(j);
                        proof {
                            assert(self.entry_ok(OrderSide::Buy, i as int, k));
                        }
                        let o = slab_get_copy(&self.order_ledger, k);
                        proof {
                            assert(q.subrange(0, j as int + 1) =~= q.subrange(
                                0,
                                j as int,
                            ).push(k));
                            lemma_queue_qty_push(self.ledger(), q.subrange(0, j as int), k);
                        }
                        available = available + o.quantity as u64;
                        if available >= order.quantity as u64 {
                            proof {
                                lemma_prefix_reaches_down(
                                    *self,
                                    OrderSide::Buy,
                                    order.price as int,
                                    i as int,
                                    levels as int - 1,
                                    j as int + 1,
                                );
                                assert(self.range_qty(
                                    OrderSide::Buy,
                                    order.price as int,
                                    levels as int - 1,
                                ) >= available);
                            }
                            return Ok(true);
                        }
                        j += 1;
                    }
                    proof {
                        assert(q.subrange(0, q.len() as int) =~= q);
                        assert(self.range_qty(OrderSide::Buy, i as int, levels as int - 1)
                            == self.level_qty(OrderSide::Buy, i as int) + self.range_qty(
                            OrderSide::Buy,
                            jx as int,
                            levels as int - 1,
                        ));
                    }
                    jx = i;
                }
                Ok(false)
            }
        }
    }


    /// Appends a batch of fills to the persistent trade history, leaving
    /// every other part of the book as it was.
    #[verifier::loop_isolation(false)]
    fn record_fills(&mut self, fills: &Vec<OrderFill>)
        requires
            old(self).wf(),
        ensures
            final(self).wf(),
            final(self).trade_history@ == old(self).trade_history@ + fills@,
            *final(self) == (FixedPriceOrderBook {
                trade_history: final(self).trade_history,
                ..*old(self)
            }),
    {
        let mut idx: usize = 0;
        while idx < fills.len()
            invariant
                idx <= fills@.len(),
                self.trade_history@ == old(self).trade_history@ + fills@.subrange(0, idx as int),
                *self == (FixedPriceOrderBook { trade_history: self.trade_history, ..*old(self) }),
            decreases fills@.len() - idx,
        {
            let f = fills[idx];
            self.trade_history.push(f);
            proof {
                assert(old(self).trade_history@ + fills@.subrange(0, idx as int + 1)
                    =~= (old(self).trade_history@ + fills@.subrange(0, idx as int)).push(f));
            }
            idx += 1;
        }
        proof {
            assert(fills@.subrange(0, fills@.len() as int) =~= fills@);
            lemma_core_frame(*old(self), *self);
            lemma_bid_bound_frame(*old(self), *self);
            lemma_ask_bound_frame(*old(self), *self);
        }
    }

    /// Matches a limit order against the opposite side within its price —
    /// a buyer scans the asks at ticks up to its price, a seller the bids
    /// at ticks from its price up — records the resulting fills in the
    /// trade history, and returns them. Never fails; any remainder is left
    /// on the order for the caller.
    pub fn fill_limit_order(&mut self, order: &mut Order) -> (r: Result<
        Vec<OrderFill>,
        OrderBookError,
    >)
        requires
            old(self).wf(),
            (old(order).price as int) < old(self).levels(),
            old(order).quantity >= 0,
        ensures
            r is Ok,
            final(self).wf(),
            match_outcome(
                *old(self),
                *final(self),
                *old(order),
                *final(order),
                (r->Ok_0)@,
                old(self).limit_lo(*old(order)),
                old(self).limit_hi(*old(order)),
            ),
            final(self).trade_history@ == old(self).trade_history@ + (r->Ok_0)@,
    {
        let fills = match order.order_side {
            OrderSide::Buy => {
                let end = order.price as usize;
                let f = self.match_order_against_book(order, 0, end);
                proof {
                    assert(f is Ok);
                }
                f.unwrap()
            }
            OrderSide::Sell => {
                let start = order.price as usize;
                let end = self.bids.len() - 1;
                let f = self.match_order_against_book(order, start, end);
                proof {
                    assert(f is Ok);
                }
                f.unwrap()
            }
        };
        let ghost mid = *self;
        self.record_fills(&fills);
        proof {
            lemma_match_outcome_history_frame(
                *old(self),
                mid,
                *self,
                *old(order),
                *order,
                fills@,
                old(self).limit_lo(*old(order)),
                old(self).limit_hi(*old(order)),
            );
        }
        Ok(fills)
    }

    /// Matches a market order against the whole opposite side — a buyer
    /// scans every ask tick upward, a seller every bid tick downward —
    /// records the resulting fills in the trade history, and returns them.
    /// Never fails; any remainder is left on the order for the caller.
    pub fn fill_market_order(&mut self, order: &mut Order) -> (r: Result<
        Vec<OrderFill>,
        OrderBookError,
    >)
        requires
            old(self).wf(),
            old(order).quantity >= 0,
        ensures
            r is Ok,
            final(self).wf(),
            match_outcome(
                *old(self),
                *final(self),
                *old(order),
                *final(order),
                (r->Ok_0)@,
                0,
                old(self).levels() - 1,
            ),
            final(self).trade_history@ == old(self).trade_history@ + (r->Ok_0)@,
    {
        let fills = match order.order_side {
            OrderSide::Buy => {
                let end = self.asks.len() - 1;
                let f = self.match_order_against_book(order, 0, end);
                proof {
                    assert(f is Ok);
                }
                f.unwrap()
            }
            OrderSide::Sell => {
                let end = self.bids.len() - 1;
                let f = self.match_order_against_book(order, 0, end);
                proof {
                    assert(f is Ok);
                }
                f.unwrap()
            }
        };
        let ghost mid = *self;
        self.record_fills(&fills);
        proof {
            lemma_match_outcome_history_frame(
                *old(self),
                mid,
                *self,
                *old(order),
                *order,
                fills@,
                0,
                old(self).levels() - 1,
            );
        }
        Ok(fills)
    }

    /// Matches an immediate-or-cancel order exactly as a limit order; the
    /// caller discards any remainder instead of resting it. Never fails.
    pub fn fill_immediate_or_cancel_order(&mut self, order: &mut Order) -> (r: Result<
        Vec<OrderFill>,
        OrderBookError,
    >)
        requires
            old(self).wf(),
            (old(order).price as int) < old(self).levels(),
            old(order).quantity >= 0,
        ensures
            r is Ok,
            final(self).wf(),
            match_outcome(
                *old(self),
                *final(self),
                *old(order),
                *final(order),
                (r->Ok_0)@,
                old(self).limit_lo(*old(order)),
                old(self).limit_hi(*old(order)),
            ),
            final(self).trade_history@ == old(self).trade_history@ + (r->Ok_0)@,
    {
        let fills = self.fill_limit_order(order);
        proof {
            assert(fills is Ok);
        }
        let fills = fills.unwrap();
        Ok(fills)
    }

    /// Fills a fill-or-kill order in full or not at all: when the book
    /// cannot fill it completely within its price it is killed with
    /// `CannotFillCompletely` and nothing changes; otherwise it is matched
    /// as a limit order and, by the precheck, leaves no remainder.
    pub fn fill_fill_or_kill_order(&mut self, order: &mut Order) -> (r: Result<
        Vec<OrderFill>,
        OrderBookError,
    >)
        requires
            old(self).wf(),
            (old(order).price as int) < old(self).levels(),
            old(order).quantity >= 0,
        ensures
            final(self).wf(),
            r is Err <==> old(self).limit_avail(*old(order)) < old(order).quantity,
            r is Err ==> *final(self) == *old(self) && *final(order) == *old(order) && r
                == Err::<Vec<OrderFill>, OrderBookError>(OrderBookError::CannotFillCompletely),
            r is Ok ==> ({
                &&& match_outcome(
                    *old(self),
                    *final(self),
                    *old(order),
                    *final(order),
                    (r->Ok_0)@,
                    old(self).limit_lo(*old(order)),
                    old(self).limit_hi(*old(order)),
                )
                &&& final(order).quantity == 0
                &&& fills_qty((r->Ok_0)@) == old(order).quantity
                &&& final(self).trade_history@ == old(self).trade_history@ + (r->Ok_0)@
            }),
    {
        let can = self.can_fill_completely(order);
        proof {
            assert(can is Ok);
        }
        if !can.unwrap() {
            return Err(OrderBookError::CannotFillCompletely);
        }

        let fills = self.fill_limit_order(order);
        proof {
            assert(fills is Ok);
        }
        let fills = fills.unwrap();
        Ok(fills)
    }


    /// Dispatches an incoming order by its type. A limit order matches
    /// within its price and rests any remainder; a market order matches the
    /// whole book and reports `InsufficientLiquidity` when exhausted, its
    /// fills staying recorded; an immediate-or-cancel order matches within
    /// its price and silently drops the remainder; a fill-or-kill order
    /// either fills in full or is rejected untouched with
    /// `CannotFillCompletely`.
    pub fn execute_fill_by_order_type(&mut self, order: Order) -> (r: Result<(), OrderBookError>)
        requires
            old(self).wf(),
            (order.price as int) < old(self).levels(),
            order.quantity > 0,
            !old(self).index_mappings@.contains_key(order.order_id),
        ensures
            final(self).wf(),
            final(self).config == old(self).config,
            final(self).trade_history@.subrange(0, old(self).trade_history@.len() as int) == old(
                self,
            ).trade_history@,
            execute_outcome(*old(self), *final(self), order, r),
    {
        match order.order_type {
            OrderType::Limit => {
                let mut work = order;
                proof {
                    lemma_opposite_range_nonneg(
                        *self,
                        order.order_side,
                        self.limit_lo(order),
                        self.limit_hi(order),
                    );
                }
                let fills = self.fill_limit_order(&mut work);
                proof {
                    assert(fills is Ok);
                }
                let fills = fills.unwrap();
                let ghost mid = *self;
                proof {
                    lemma_fills_qty_concat(old(self).trade_history@, fills@);
                    lemma_fills_qty_pos(fills@);
                    assert(self.trade_history@.subrange(
                        0,
                        old(self).trade_history@.len() as int,
                    ) =~= old(self).trade_history@);
                    assert(matched_recorded(
                        *old(self),
                        mid,
                        order,
                        fills@,
                        old(self).limit_lo(order),
                        old(self).limit_hi(order),
                    ));
                }
                let partially_filled = fills.len() > 0;

                if work.quantity > 0 {
                    let rested = self.rest_remaining_limit_order(work, partially_filled);
                    if let Err(e) = rested {
                        proof {
                            assert(e == OrderBookError::FullRingBuffer);
                            assert(limit_admission(
                                *old(self),
                                *self,
                                order,
                                Err::<(), OrderBookError>(e),
                                mid,
                                fills@,
                            ));
                        }
                        return Err(e);
                    }
                    proof {
                        assert(limit_admission(
                            *old(self),
                            *self,
                            order,
                            Ok::<(), OrderBookError>(()),
                            mid,
                            fills@,
                        ));
                    }
                } else {
                    proof {
                        assert(limit_admission(
                            *old(self),
                            *self,
                            order,
                            Ok::<(), OrderBookError>(()),
                            mid,
                            fills@,
                        ));
                    }
                }
                Ok(())
            }
            OrderType::Market => {
                let mut work = order;
                proof {
                    lemma_opposite_range_nonneg(*self, order.order_side, 0, self.levels() - 1);
                }
                let fills = self.fill_market_order(&mut work);
                proof {
                    assert(fills is Ok);
                }
                let fills = fills.unwrap();
                proof {
                    lemma_fills_qty_concat(old(self).trade_history@, fills@);
                    assert(self.trade_history@.subrange(
                        0,
                        old(self).trade_history@.len() as int,
                    ) =~= old(self).trade_history@);
                    assert(matched_recorded(
                        *old(self),
                        *self,
                        order,
                        fills@,
                        0,
                        old(self).levels() - 1,
                    ));
                }
                if work.quantity > 0 {
                    return Err(OrderBookError::InsufficientLiquidity);
                }
                Ok(())
            }
            OrderType::ImmediateOrCancel => {
                let mut work = order;
                proof {
                    lemma_opposite_range_nonneg(
                        *self,
                        order.order_side,
                        self.limit_lo(order),
                        self.limit_hi(order),
                    );
                }
                let fills = self.fill_immediate_or_cancel_order(&mut work);
                proof {
                    assert(fills is Ok);
                }
                let fills = fills.unwrap();
                proof {
                    lemma_fills_qty_concat(old(self).trade_history@, fills@);
                    assert(self.trade_history@.subrange(
                        0,
                        old(self).trade_history@.len() as int,
                    ) =~= old(self).trade_history@);
                    assert(matched_recorded(
                        *old(self),
                        *self,
                        order,
                        fills@,
                        old(self).limit_lo(order),
                        old(self).limit_hi(order),
                    ));
                }
                Ok(())
            }
            OrderType::FillOrKill => {
                let mut work = order;
                proof {
                    lemma_opposite_range_nonneg(
                        *self,
                        order.order_side,
                        self.limit_lo(order),
                        self.limit_hi(order),
                    );
                }
                let fills = self.fill_fill_or_kill_order(&mut work);
                match fills {
                    Ok(fills) => {
                        proof {
                            lemma_fills_qty_concat(old(self).trade_history@, fills@);
                            assert(self.trade_history@.subrange(
                                0,
                                old(self).trade_history@.len() as int,
                            ) =~= old(self).trade_history@);
                            assert(matched_recorded(
                                *old(self),
                                *self,
                                order,
                                fills@,
                                old(self).limit_lo(order),
                                old(self).limit_hi(order),
                            ));
                        }
                        Ok(())
                    }
                    Err(e) => {
                        proof {
                            assert(self.trade_history@.subrange(
                                0,
                                old(self).trade_history@.len() as int,
                            ) =~= old(self).trade_history@);
                        }
                        Err(e)
                    }
                }
            }
        }
    }

    /// Admits an order into the book: validates that its tick lies on the
    /// price axis — otherwise `PriceOutOfRange`, with nothing changed — and
    /// dispatches it by type. The order is consumed; the caller no longer
    /// owns it after entry.
    pub fn add_order(&mut self, order: Order) -> (r: Result<(), OrderBookError>)
        requires
            old(self).wf(),
            order.quantity > 0,
            !old(self).index_mappings@.contains_key(order.order_id),
        ensures
            final(self).wf(),
            final(self).config == old(self).config,
            r == Err::<(), OrderBookError>(OrderBookError::PriceOutOfRange) <==> (
            order.price as int) >= old(self).levels(),
            (order.price as int) >= old(self).levels() ==> *final(self) == *old(self),
            final(self).trade_history@.subrange(0, old(self).trade_history@.len() as int) == old(
                self,
            ).trade_history@,
            (order.price as int) < old(self).levels() ==> execute_outcome(
                *old(self),
                *final(self),
                order,
                r,
            ),
    {
        if order.price as usize >= self.bids.len() {
            return Err(OrderBookError::PriceOutOfRange);
        }

        self.execute_fill_by_order_type(order)?;

        Ok(())
    }

    /// Removes a resting order by its external id: releases its ledger
    /// slot, takes its index out of its side's queue at its tick —
    /// preserving the order of the surviving entries — drops its id from
    /// the index mapping, and clears the tick's active bit when the queue
    /// is left empty. An unknown id fails with `OrderNotFound` and changes
    /// nothing. The best-price caches are only refreshed lazily, on read.
    pub fn cancel_order(&mut self, order_id: u64) -> (r: Result<(), OrderBookError>)
        requires
            old(self).wf(),
        ensures
            final(self).wf(),
            r is Err <==> !old(self).index_mappings@.contains_key(order_id),
            r is Err ==> *final(self) == *old(self) && r == Err::<(), OrderBookError>(
                OrderBookError::OrderNotFound,
            ),
            r is Ok ==> cancel_outcome(*old(self), *final(self), order_id),
    {
        if !self.index_mappings.contains_key(&order_id) {
            return Err(OrderBookError::OrderNotFound);
        }

        let found_index = self.index_mappings.get(&order_id);
        let ledger_index = *found_index.unwrap();
        proof {
            assert(self.ledger().contains_key(ledger_index));
        }
        let order = slab_get_copy(&self.order_ledger, ledger_index);
        if order.price as usize >= self.bids.len() {
            return Err(OrderBookError::PriceOutOfRange);
        }
        let price_index = order.price as usize;

        match order.order_side {
            OrderSide::Buy => {
                let found = self.bids[price_index].remove_by_value(ledger_index);
                proof {
                    assert(found);
                }
                let _removed = slab_remove(&mut self.order_ledger, ledger_index);
                self.index_mappings.remove(&order_id);
                if self.bids[price_index].is_empty() {
                    let cleared = self.active_bids.clear(price_index);
                    proof {
                        assert(cleared is Ok);
                    }
                }
            }
            OrderSide::Sell => {
                let found = self.asks[price_index].remove_by_value(ledger_index);
                proof {
                    assert(found);
                }
                let _removed = slab_remove(&mut self.order_ledger, ledger_index);
                self.index_mappings.remove(&order_id);
                if self.asks[price_index].is_empty() {
                    let cleared = self.active_asks.clear(price_index);
                    proof {
                        assert(cleared is Ok);
                    }
                }
            }
        }
        proof {
            lemma_cancel_wrapup(*old(self), *self, order_id, ledger_index);
        }
        Ok(())
    }

    /// Replaces a resting order: cancels it by id, then admits the new
    /// order over the book the cancellation left, so the modified order
    /// takes its price-time priority from the moment of the modification.
    /// When cancellation fails the error surfaces and the new order is not
    /// admitted.
    pub fn modify_order(&mut self, order_id: u64, order: Order) -> (r: Result<
        (),
        OrderBookError,
    >)
        requires
            old(self).wf(),
            order.quantity > 0,
            order.order_id == order_id || !old(self).index_mappings@.contains_key(order.order_id),
        ensures
            final(self).wf(),
            final(self).config == old(self).config,
            r == Err::<(), OrderBookError>(OrderBookError::OrderNotFound) <==> !old(
                self,
            ).index_mappings@.contains_key(order_id),
            !old(self).index_mappings@.contains_key(order_id) ==> *final(self) == *old(self),
            (old(self).index_mappings@.contains_key(order_id) && (order.price as int) >= old(
                self,
            ).levels()) ==> r == Err::<(), OrderBookError>(OrderBookError::PriceOutOfRange),
            final(self).trade_history@.subrange(0, old(self).trade_history@.len() as int) == old(
                self,
            ).trade_history@,
            old(self).index_mappings@.contains_key(order_id) ==> (exists|
                mid: FixedPriceOrderBook,
            |
                #[trigger] modify_steps(*old(self), mid, *final(self), order_id, order, r)),
    {
        let cancelled = self.cancel_order(order_id);
        if let Err(e) = cancelled {
            proof {
                assert(e == OrderBookError::OrderNotFound);
            }
            return Err(e);
        }
        let ghost mid = *self;
        proof {
            assert(self.trade_history == old(self).trade_history);
        }
        let added = self.add_order(order);
        proof {
            assert(self.trade_history@.subrange(0, old(self).trade_history@.len() as int)
                =~= old(self).trade_history@);
            assert(modify_steps(*old(self), mid, *self, order_id, order, added));
        }
        added
    }

    /// The highest tick with resting bid liquidity, or `None` when no bid
    /// rests. Reads the cache when it is still accurate and otherwise falls
    /// back to the authoritative bitset scan.
    pub fn best_bid(&self) -> (r: Option<usize>)
        requires
            self.wf(),
        ensures
            match r {
                Some(b) => {
                    &&& 0 <= b < self.levels()
                    &&& self.queue_at(OrderSide::Buy, b as int).len() > 0
                    &&& forall|i: int|
                        b < i < self.levels() ==> #[trigger] self.queue_at(
                            OrderSide::Buy,
                            i,
                        ).len() == 0
                },
                None => forall|i: int|
                    0 <= i < self.levels() ==> #[trigger] self.queue_at(OrderSide::Buy, i).len()
                        == 0,
            },
    {
        if let Some(b) = self.best_bid_index {
            if self.active_bids.is_set(b) {
                proof {
                    assert forall|i: int|
                        (b as int) < i < self.levels() implies #[trigger] self.queue_at(
                        OrderSide::Buy,
                        i,
                    ).len() == 0 by {
                        if self.queue_at(OrderSide::Buy, i).len() > 0 {
                            assert(self.active_bids.spec_is_set(i));
                        }
                    }
                }
                return Some(b);
            }
        }
        let r = self.active_bids.find_last_set();
        proof {
            match r {
                Some(i) => {
                    assert(self.active_bids.spec_is_set(i as int));
                    assert forall|n: int|
                        (i as int) < n < self.levels() implies #[trigger] self.queue_at(
                        OrderSide::Buy,
                        n,
                    ).len() == 0 by {
                        if self.queue_at(OrderSide::Buy, n).len() > 0 {
                            assert(self.active_bids.spec_is_set(n));
                        }
                    }
                }
                None => {
                    assert forall|n: int|
                        0 <= n < self.levels() implies #[trigger] self.queue_at(
                        OrderSide::Buy,
                        n,
                    ).len() == 0 by {
                        if self.queue_at(OrderSide::Buy, n).len() > 0 {
                            assert(self.active_bids.spec_is_set(n));
                        }
                    }
                }
            }
        }
        r
    }

    /// The lowest tick with resting ask liquidity, or `None` when no ask
    /// rests. Reads the cache when it is still accurate and otherwise falls
    /// back to the authoritative bitset scan.
    pub fn best_ask(&self) -> (r: Option<usize>)
        requires
            self.wf(),
        ensures
            match r {
                Some(a) => {
                    &&& 0 <= a < self.levels()
                    &&& self.queue_at(OrderSide::Sell, a as int).len() > 0
                    &&& forall|i: int|
                        0 <= i < a ==> #[trigger] self.queue_at(OrderSide::Sell, i).len() == 0
                },
                None => forall|i: int|
                    0 <= i < self.levels() ==> #[trigger] self.queue_at(OrderSide::Sell, i).len()
                        == 0,
            },
    {
        if let Some(a) = self.best_ask_index {
            if self.active_asks.is_set(a) {
                proof {
                    assert forall|i: int| 0 <= i < (a as int) implies #[trigger] self.queue_at(
                        OrderSide::Sell,
                        i,
                    ).len() == 0 by {
                        if self.queue_at(OrderSide::Sell, i).len() > 0 {
                            assert(self.active_asks.spec_is_set(i));
                        }
                    }
                }
                return Some(a);
            }
        }
        let r = self.active_asks.find_first_set();
        proof {
            match r {
                Some(i) => {
                    assert(self.active_asks.spec_is_set(i as int));
                    assert forall|n: int| 0 <= n < (i as int) implies #[trigger] self.queue_at(
                        OrderSide::Sell,
                        n,
                    ).len() == 0 by {
                        if self.queue_at(OrderSide::Sell, n).len() > 0 {
                            assert(self.active_asks.spec_is_set(n));
                        }
                    }
                }
                None => {
                    assert forall|n: int|
                        0 <= n < self.levels() implies #[trigger] self.queue_at(
                        OrderSide::Sell,
                        n,
                    ).len() == 0 by {
                        if self.queue_at(OrderSide::Sell, n).len() > 0 {
                            assert(self.active_asks.spec_is_set(n));
                        }
                    }
                }
            }
        }
        r
    }
}


/// The core invariants depend only on the queues, the ledger, the mapping
/// and the bitsets: two books equal on those fields share them.
proof fn lemma_core_frame(a: FixedPriceOrderBook, b: FixedPriceOrderBook)
    requires
        b.config == a.config,
        b.bids == a.bids,
        b.asks == a.asks,
        b.order_ledger == a.order_ledger,
        b.index_mappings == a.index_mappings,
        b.active_bids == a.active_bids,
        b.active_asks == a.active_asks,
        a.shape_ok(),
        a.side_queues_ok(OrderSide::Buy),
        a.side_queues_ok(OrderSide::Sell),
        a.ledger_in_queues(),
        a.mappings_ok(),
        a.active_ok(),
    ensures
        b.shape_ok(),
        b.side_queues_ok(OrderSide::Buy),
        b.side_queues_ok(OrderSide::Sell),
        b.ledger_in_queues(),
        b.mappings_ok(),
        b.active_ok(),
{
    lemma_side_queues_frame(a, b, OrderSide::Buy);
    lemma_side_queues_frame(a, b, OrderSide::Sell);
    assert forall|k: usize| #[trigger] b.ledger().contains_key(k) implies {
        &&& 0 <= (b.ledger()[k].price as int) < b.levels()
        &&& b.queue_at(b.ledger()[k].order_side, b.ledger()[k].price as int).contains(k)
    } by {
        assert(a.ledger().contains_key(k));
        assert(b.queue_at(b.ledger()[k].order_side, b.ledger()[k].price as int) == a.queue_at(
            a.ledger()[k].order_side,
            a.ledger()[k].price as int,
        ));
    }
    assert forall|k: usize| #[trigger]
        b.ledger().contains_key(k) implies b.index_mappings@.contains_key(b.ledger()[k].order_id)
        && b.index_mappings@[b.ledger()[k].order_id] == k by {
        assert(a.ledger().contains_key(k));
    }
    assert forall|id: u64| #[trigger]
        b.index_mappings@.contains_key(id) implies b.ledger().contains_key(b.index_mappings@[id])
        && b.ledger()[b.index_mappings@[id]].order_id == id by {
        assert(a.index_mappings@.contains_key(id));
    }
    assert forall|i: int| #[trigger]
        b.active_bids.spec_is_set(i) <==> (0 <= i < b.levels() && b.queue_at(
        OrderSide::Buy,
        i,
    ).len() > 0) by {
        assert(a.active_bids.spec_is_set(i) <==> (0 <= i < a.levels() && a.queue_at(
            OrderSide::Buy,
            i,
        ).len() > 0));
        assert(0 <= i < a.levels() ==> b.queue_at(OrderSide::Buy, i) == a.queue_at(
            OrderSide::Buy,
            i,
        ));
    }
    assert forall|i: int| #[trigger]
        b.active_asks.spec_is_set(i) <==> (0 <= i < b.levels() && b.queue_at(
        OrderSide::Sell,
        i,
    ).len() > 0) by {
        assert(a.active_asks.spec_is_set(i) <==> (0 <= i < a.levels() && a.queue_at(
            OrderSide::Sell,
            i,
        ).len() > 0));
        assert(0 <= i < a.levels() ==> b.queue_at(OrderSide::Sell, i) == a.queue_at(
            OrderSide::Sell,
            i,
        ));
    }
}

/// One side's queue invariant carries across books equal on the core
/// fields.
proof fn lemma_side_queues_frame(a: FixedPriceOrderBook, b: FixedPriceOrderBook, side: OrderSide)
    requires
        b.config == a.config,
        b.bids == a.bids,
        b.asks == a.asks,
        b.order_ledger == a.order_ledger,
        a.side_queues_ok(side),
    ensures
        b.side_queues_ok(side),
{
    assert forall|i: int, j: int|
        0 <= i < b.levels() && 0 <= j < b.queue_at(side, i).len() implies b.entry_ok(
        side,
        i,
        #[trigger] b.queue_at(side, i)[j],
    ) by {
        assert(b.queue_at(side, i) == a.queue_at(side, i));
        assert(a.entry_ok(side, i, a.queue_at(side, i)[j]));
    }
    assert forall|i: int, j1: int, j2: int|
        0 <= i < b.levels() && 0 <= j1 < j2 < b.queue_at(side, i).len() implies #[trigger] b.queue_at(
        side,
        i,
    )[j1] != #[trigger] b.queue_at(side, i)[j2] by {
        assert(b.queue_at(side, i) == a.queue_at(side, i));
        assert(a.queue_at(side, i)[j1] != a.queue_at(side, i)[j2]);
    }
}



/// One side's queue invariant survives a book change that keeps that side's
/// queues and only shrinks (never removes) the entries they reference.
proof fn lemma_side_queues_untouched(a: FixedPriceOrderBook, b: FixedPriceOrderBook, side: OrderSide)
    requires
        a.side_queues_ok(side),
        b.config == a.config,
        b.queues_of(side) == a.queues_of(side),
        forall|i2: int, j: int|
            0 <= i2 < a.levels() && 0 <= j < a.queue_at(side, i2).len() ==> {
                let key = #[trigger] a.queue_at(side, i2)[j];
                &&& b.ledger().contains_key(key)
                &&& entry_shrunk(b.ledger()[key], a.ledger()[key])
            },
    ensures
        b.side_queues_ok(side),
{
    assert forall|i2: int, j: int|
        0 <= i2 < b.levels() && 0 <= j < b.queue_at(side, i2).len() implies b.entry_ok(
        side,
        i2,
        #[trigger] b.queue_at(side, i2)[j],
    ) by {
        assert(b.queue_at(side, i2) == a.queue_at(side, i2));
        let key = a.queue_at(side, i2)[j];
        assert(a.entry_ok(side, i2, key));
        assert(b.ledger().contains_key(key) && entry_shrunk(b.ledger()[key], a.ledger()[key]));
    }
    assert forall|i2: int, j1: int, j2: int|
        0 <= i2 < b.levels() && 0 <= j1 < j2 < b.queue_at(side, i2).len() implies #[trigger] b.queue_at(
        side,
        i2,
    )[j1] != #[trigger] b.queue_at(side, i2)[j2] by {
        assert(b.queue_at(side, i2) == a.queue_at(side, i2));
        assert(a.queue_at(side, i2)[j1] != a.queue_at(side, i2)[j2]);
    }
}


/// Reads the active-level invariant for one side at one tick.
proof fn lemma_active_iff(b: FixedPriceOrderBook, side: OrderSide, n: int)
    requires
        b.active_ok(),
    ensures
        b.active_of(side).spec_is_set(n) <==> (0 <= n < b.levels() && b.queue_at(side, n).len()
            > 0),
{
    match side {
        OrderSide::Buy => {
            assert(b.active_bids.spec_is_set(n) <==> (0 <= n < b.levels() && b.queue_at(
                OrderSide::Buy,
                n,
            ).len() > 0));
        }
        OrderSide::Sell => {
            assert(b.active_asks.spec_is_set(n) <==> (0 <= n < b.levels() && b.queue_at(
                OrderSide::Sell,
                n,
            ).len() > 0));
        }
    }
}

/// Assembles the active-level invariant from its two per-side forms.
proof fn lemma_active_ok_from_sides(b: FixedPriceOrderBook, osd: OrderSide)
    requires
        forall|n: int| #[trigger]
            b.active_of(osd).spec_is_set(n) <==> (0 <= n < b.levels() && b.queue_at(osd, n).len()
                > 0),
        forall|n: int| #[trigger]
            b.active_of(osd.spec_opposite()).spec_is_set(n) <==> (0 <= n < b.levels()
                && b.queue_at(osd.spec_opposite(), n).len() > 0),
    ensures
        b.active_ok(),
{
    match osd {
        OrderSide::Buy => {
            assert(b.active_of(OrderSide::Buy) == b.active_bids);
            assert(b.active_of(OrderSide::Sell) == b.active_asks);
            assert forall|n: int| #[trigger]
                b.active_bids.spec_is_set(n) <==> (0 <= n < b.levels() && b.queue_at(
                OrderSide::Buy,
                n,
            ).len() > 0) by {
                assert(b.active_of(OrderSide::Buy).spec_is_set(n) <==> (0 <= n < b.levels()
                    && b.queue_at(OrderSide::Buy, n).len() > 0));
            }
            assert forall|n: int| #[trigger]
                b.active_asks.spec_is_set(n) <==> (0 <= n < b.levels() && b.queue_at(
                OrderSide::Sell,
                n,
            ).len() > 0) by {
                assert(b.active_of(OrderSide::Sell).spec_is_set(n) <==> (0 <= n < b.levels()
                    && b.queue_at(OrderSide::Sell, n).len() > 0));
            }
        }
        OrderSide::Sell => {
            assert forall|n: int| #[trigger]
                b.active_bids.spec_is_set(n) <==> (0 <= n < b.levels() && b.queue_at(
                OrderSide::Buy,
                n,
            ).len() > 0) by {
                assert(b.active_of(OrderSide::Buy).spec_is_set(n) <==> (0 <= n < b.levels()
                    && b.queue_at(OrderSide::Buy, n).len() > 0));
            }
            assert forall|n: int| #[trigger]
                b.active_asks.spec_is_set(n) <==> (0 <= n < b.levels() && b.queue_at(
                OrderSide::Sell,
                n,
            ).len() > 0) by {
                assert(b.active_of(OrderSide::Sell).spec_is_set(n) <==> (0 <= n < b.levels()
                    && b.queue_at(OrderSide::Sell, n).len() > 0));
            }
        }
    }
}




/// A queue total splits across concatenation.
proof fn lemma_queue_qty_concat(l: Map<usize, Order>, a: Seq<usize>, b: Seq<usize>)
    ensures
        queue_qty(l, a + b) == queue_qty(l, a) + queue_qty(l, b),
    decreases a.len(),
{
    if a.len() == 0 {
        assert(a + b =~= b);
    } else {
        assert((a + b)[0] == a[0]);
        assert((a + b).drop_first() =~= a.drop_first() + b);
        lemma_queue_qty_concat(l, a.drop_first(), b);
    }
}

/// A fills total splits across concatenation.
proof fn lemma_fills_qty_concat(a: Seq<OrderFill>, b: Seq<OrderFill>)
    ensures
        fills_qty(a + b) == fills_qty(a) + fills_qty(b),
    decreases b.len(),
{
    if b.len() == 0 {
        assert(a + b =~= a);
    } else {
        assert((a + b).drop_last() =~= a + b.drop_last());
        assert((a + b).last() == b.last());
        lemma_fills_qty_concat(a, b.drop_last());
    }
}

/// Membership in a sequence survives a push.
proof fn lemma_seq_push_contains(q: Seq<usize>, k: usize, x: usize)
    requires
        q.contains(x),
    ensures
        q.push(k).contains(x),
{
    let j = choose|j: int| 0 <= j < q.len() && q[j] == x;
    assert(q.push(k)[j] == x);
}



/// A one-tick range is that tick's level total.
proof fn lemma_range_qty_single(book: FixedPriceOrderBook, side: OrderSide, i: int)
    ensures
        book.range_qty(side, i, i) == book.level_qty(side, i),
{
    assert(book.range_qty(side, i + 1, i) == 0);
}

/// A partial sum seen while scanning a range upward never exceeds the
/// range's total: the part of level `i` behind position `p` and the levels
/// beyond `i` only add liquidity.
proof fn lemma_prefix_reaches(
    book: FixedPriceOrderBook,
    side: OrderSide,
    lo: int,
    i: int,
    hi: int,
    p: int,
)
    requires
        book.side_queues_ok(side),
        0 <= lo <= i <= hi < book.levels(),
        0 <= p <= book.queue_at(side, i).len(),
    ensures
        book.range_qty(side, lo, hi) >= book.range_qty(side, lo, i - 1) + queue_qty(
            book.ledger(),
            book.queue_at(side, i).subrange(0, p),
        ),
{
    let q = book.queue_at(side, i);
    assert forall|j: int| 0 <= j < q.len() implies entry_qty(book.ledger(), #[trigger] q[j])
        >= 0 by {
        assert(book.entry_ok(side, i, q[j]));
    }
    assert(q =~= q.subrange(0, p) + q.subrange(p, q.len() as int));
    lemma_queue_qty_concat(book.ledger(), q.subrange(0, p), q.subrange(p, q.len() as int));
    assert forall|j: int|
        0 <= j < q.subrange(p, q.len() as int).len() implies entry_qty(
        book.ledger(),
        #[trigger] q.subrange(p, q.len() as int)[j],
    ) >= 0 by {
        assert(q.subrange(p, q.len() as int)[j] == q[j + p]);
    }
    lemma_queue_qty_nonneg(book.ledger(), q.subrange(p, q.len() as int));
    lemma_range_qty_split(book, side, lo, i - 1, hi);
    lemma_range_qty_split(book, side, i, i, hi);
    lemma_range_qty_single(book, side, i);
    lemma_range_qty_nonneg(book, side, i + 1, hi);
}

/// A partial sum seen while scanning a range downward never exceeds the
/// range's total.
proof fn lemma_prefix_reaches_down(
    book: FixedPriceOrderBook,
    side: OrderSide,
    lo: int,
    i: int,
    hi: int,
    p: int,
)
    requires
        book.side_queues_ok(side),
        0 <= lo <= i <= hi < book.levels(),
        0 <= p <= book.queue_at(side, i).len(),
    ensures
        book.range_qty(side, lo, hi) >= book.range_qty(side, i + 1, hi) + queue_qty(
            book.ledger(),
            book.queue_at(side, i).subrange(0, p),
        ),
{
    let q = book.queue_at(side, i);
    assert forall|j: int| 0 <= j < q.len() implies entry_qty(book.ledger(), #[trigger] q[j])
        >= 0 by {
        assert(book.entry_ok(side, i, q[j]));
    }
    assert(q =~= q.subrange(0, p) + q.subrange(p, q.len() as int));
    lemma_queue_qty_concat(book.ledger(), q.subrange(0, p), q.subrange(p, q.len() as int));
    assert forall|j: int|
        0 <= j < q.subrange(p, q.len() as int).len() implies entry_qty(
        book.ledger(),
        #[trigger] q.subrange(p, q.len() as int)[j],
    ) >= 0 by {
        assert(q.subrange(p, q.len() as int)[j] == q[j + p]);
    }
    lemma_queue_qty_nonneg(book.ledger(), q.subrange(p, q.len() as int));
    lemma_range_qty_split(book, side, lo, i - 1, hi);
    lemma_range_qty_split(book, side, i, i, hi);
    lemma_range_qty_single(book, side, i);
    lemma_range_qty_nonneg(book, side, lo, i - 1);
}



/// Opposite-side range totals are non-negative in a well-formed book.
proof fn lemma_opposite_range_nonneg(book: FixedPriceOrderBook, side: OrderSide, lo: int, hi: int)
    requires
        book.side_queues_ok(OrderSide::Buy),
        book.side_queues_ok(OrderSide::Sell),
        0 <= lo,
        hi < book.levels(),
    ensures
        book.range_qty(side.spec_opposite(), lo, hi) >= 0,
{
    match side {
        OrderSide::Buy => {
            lemma_range_qty_nonneg(book, OrderSide::Sell, lo, hi);
        }
        OrderSide::Sell => {
            lemma_range_qty_nonneg(book, OrderSide::Buy, lo, hi);
        }
    }
}

/// Fills of positive quantity sum positively; none sum to zero.
proof fn lemma_fills_qty_pos(f: Seq<OrderFill>)
    requires
        forall|n: int| 0 <= n < f.len() ==> (#[trigger] f[n]).quantity > 0,
    ensures
        fills_qty(f) >= 0,
        f.len() > 0 ==> fills_qty(f) > 0,
        f.len() == 0 ==> fills_qty(f) == 0,
    decreases f.len(),
{
    if f.len() > 0 {
        assert forall|n: int|
            0 <= n < f.drop_last().len() implies (#[trigger] f.drop_last()[n]).quantity > 0 by {
            assert(f.drop_last()[n] == f[n]);
        }
        lemma_fills_qty_pos(f.drop_last());
        assert(f.last().quantity > 0);
    }
}


/// Every queue is a suffix of itself: nothing was consumed.
proof fn lemma_queue_suffix_refl(q: Seq<usize>)
    ensures
        queue_suffix_of(q, q),
{
    assert(q =~= q.skip(0));
}

/// A non-empty queue of positive entries has a positive total.
proof fn lemma_queue_qty_pos(l: Map<usize, Order>, q: Seq<usize>)
    requires
        q.len() > 0,
        forall|j: int| 0 <= j < q.len() ==> entry_qty(l, #[trigger] q[j]) > 0,
    ensures
        queue_qty(l, q) > 0,
{
    assert forall|j: int|
        0 <= j < q.drop_first().len() implies entry_qty(l, #[trigger] q.drop_first()[j]) >= 0 by {
        assert(q.drop_first()[j] == q[j + 1]);
    }
    lemma_queue_qty_nonneg(l, q.drop_first());
    assert(entry_qty(l, q[0]) > 0);
}

/// A range over levels whose totals are all zero sums to zero.
proof fn lemma_range_qty_zero(book: FixedPriceOrderBook, side: OrderSide, lo: int, hi: int)
    requires
        forall|n: int| lo <= n <= hi ==> #[trigger] book.level_qty(side, n) == 0,
    ensures
        book.range_qty(side, lo, hi) == 0,
    decreases hi - lo + 1,
{
    if lo <= hi {
        lemma_range_qty_zero(book, side, lo + 1, hi);
    }
}

/// A level's total carries across books that agree on its queue and on the
/// entries it references.
proof fn lemma_level_qty_frame(
    a: FixedPriceOrderBook,
    b: FixedPriceOrderBook,
    side: OrderSide,
    n: int,
)
    requires
        b.queue_at(side, n) == a.queue_at(side, n),
        forall|j: int|
            0 <= j < a.queue_at(side, n).len() ==> entry_qty(
                b.ledger(),
                #[trigger] a.queue_at(side, n)[j],
            ) == entry_qty(a.ledger(), a.queue_at(side, n)[j]),
    ensures
        b.level_qty(side, n) == a.level_qty(side, n),
{
    lemma_queue_qty_same_entries(b.ledger(), a.ledger(), a.queue_at(side, n));
}


/// One traversal step: when only level `i` of the range changed, and its
/// total dropped by `c`, the range total dropped by `c`.
proof fn lemma_match_range_step(
    pre: FixedPriceOrderBook,
    post: FixedPriceOrderBook,
    side: OrderSide,
    lo: int,
    i: int,
    hi: int,
    c: int,
)
    requires
        lo <= i <= hi,
        0 <= lo,
        hi < pre.levels(),
        pre.levels() == post.levels(),
        pre.side_queues_ok(side),
        forall|n: int|
            0 <= n < pre.levels() && n != i ==> post.queues_of(side)[n] == pre.queues_of(side)[n],
        forall|k: usize|
            #![trigger pre.ledger().contains_key(k)]
            pre.ledger().contains_key(k) && !(pre.ledger()[k].order_side == side
                && pre.ledger()[k].price as int == i) ==> post.ledger().contains_key(k)
                && post.ledger()[k] == pre.ledger()[k],
        post.level_qty(side, i) == pre.level_qty(side, i) - c,
    ensures
        post.range_qty(side, lo, hi) == pre.range_qty(side, lo, hi) - c,
{
    assert forall|n: int|
        lo <= n <= hi && n != i implies post.level_qty(side, n) == #[trigger] pre.level_qty(
        side,
        n,
    ) by {
        assert(post.queue_at(side, n) == pre.queue_at(side, n));
        assert forall|j: int|
            0 <= j < pre.queue_at(side, n).len() implies entry_qty(
            post.ledger(),
            #[trigger] pre.queue_at(side, n)[j],
        ) == entry_qty(pre.ledger(), pre.queue_at(side, n)[j]) by {
            assert(pre.entry_ok(side, n, pre.queue_at(side, n)[j]));
        }
        lemma_level_qty_frame(pre, post, side, n);
    }
    lemma_range_qty_split(pre, side, lo, i - 1, hi);
    lemma_range_qty_split(post, side, lo, i - 1, hi);
    lemma_range_qty_split(pre, side, i, i, hi);
    lemma_range_qty_split(post, side, i, i, hi);
    assert(pre.range_qty(side, i + 1, i) == 0);
    assert(post.range_qty(side, i + 1, i) == 0);
    assert(pre.range_qty(side, i, i) == pre.level_qty(side, i));
    assert(post.range_qty(side, i, i) == post.level_qty(side, i));
    if lo <= i - 1 {
        lemma_range_qty_same_levels(pre, post, side, lo, i - 1);
    }
    if i + 1 <= hi {
        lemma_range_qty_same_levels(pre, post, side, i + 1, hi);
    }
}

/// The bid-cache bound survives clearing bits.
proof fn lemma_bid_bound_shrink(a: FixedPriceOrderBook, b: FixedPriceOrderBook)
    requires
        a.bid_bound_ok(),
        b.best_bid_index == a.best_bid_index,
        b.config == a.config,
        forall|n: int| #[trigger]
            b.active_bids.spec_is_set(n) ==> a.active_bids.spec_is_set(n),
    ensures
        b.bid_bound_ok(),
{
    match b.best_bid_index {
        Some(bb) => {
            assert forall|n: int| #[trigger]
                b.active_bids.spec_is_set(n) implies n <= bb as int by {
                assert(a.active_bids.spec_is_set(n));
            }
        }
        None => {
            assert forall|n: int| !(#[trigger] b.active_bids.spec_is_set(n)) by {
                if b.active_bids.spec_is_set(n) {
                    assert(a.active_bids.spec_is_set(n));
                }
            }
        }
    }
}

/// The ask-cache bound survives clearing bits.
proof fn lemma_ask_bound_shrink(a: FixedPriceOrderBook, b: FixedPriceOrderBook)
    requires
        a.ask_bound_ok(),
        b.best_ask_index == a.best_ask_index,
        b.config == a.config,
        forall|n: int| #[trigger]
            b.active_asks.spec_is_set(n) ==> a.active_asks.spec_is_set(n),
    ensures
        b.ask_bound_ok(),
{
    match b.best_ask_index {
        Some(aa) => {
            assert forall|n: int| #[trigger]
                b.active_asks.spec_is_set(n) implies n >= aa as int by {
                assert(a.active_asks.spec_is_set(n));
            }
        }
        None => {
            assert forall|n: int| !(#[trigger] b.active_asks.spec_is_set(n)) by {
                if b.active_asks.spec_is_set(n) {
                    assert(a.active_asks.spec_is_set(n));
                }
            }
        }
    }
}


/// Re-establishes the book invariants after a limit order rests: `b` is `a`
/// with the rested order inserted at the fresh ledger index `k`, its index
/// queued at the back of its level, its id recorded, its tick's bit set, and
/// its side's best-price cache raised to at least its tick.
proof fn lemma_rest_wrapup(
    a: FixedPriceOrderBook,
    b: FixedPriceOrderBook,
    order: Order,
    rested: Order,
    k: usize,
)
    requires
        a.wf(),
        0 <= (order.price as int) < a.levels(),
        order.quantity > 0,
        order.order_type == OrderType::Limit,
        !a.index_mappings@.contains_key(order.order_id),
        rested == (Order {
            order_status: rested.order_status,
            ..order
        }),
        rested.order_status == OrderStatus::Active || rested.order_status
            == OrderStatus::PartiallyFilled,
        !a.ledger().contains_key(k),
        b.ledger() == a.ledger().insert(k, rested),
        b.index_mappings@ == a.index_mappings@.insert(order.order_id, k),
        b.config == a.config,
        b.queues_of(order.order_side) == a.queues_of(order.order_side).update(
            order.price as int,
            b.queues_of(order.order_side)[order.price as int],
        ),
        b.queue_at(order.order_side, order.price as int) == a.queue_at(
            order.order_side,
            order.price as int,
        ).push(k),
        b.queues_of(order.order_side)[order.price as int].wf(),
        b.queues_of(order.order_side)[order.price as int].capacity() == a.config.queue_size,
        b.queues_of(order.order_side.spec_opposite()) == a.queues_of(
            order.order_side.spec_opposite(),
        ),
        forall|n: int| #[trigger]
            b.active_of(order.order_side).spec_is_set(n) == (a.active_of(
                order.order_side,
            ).spec_is_set(n) || n == order.price as int),
        b.active_of(order.order_side).wf(),
        b.active_of(order.order_side).nbits == a.active_of(order.order_side).nbits,
        b.active_of(order.order_side.spec_opposite()) == a.active_of(
            order.order_side.spec_opposite(),
        ),
        order.order_side == OrderSide::Buy ==> b.best_ask_index == a.best_ask_index
            && b.best_bid_index == (match a.best_bid_index {
            Some(bb) => if order.price as usize > bb {
                Some(order.price as usize)
            } else {
                Some(bb)
            },
            None => Some(order.price as usize),
        }),
        order.order_side == OrderSide::Sell ==> b.best_bid_index == a.best_bid_index
            && b.best_ask_index == (match a.best_ask_index {
            Some(aa) => if (order.price as usize) < aa {
                Some(order.price as usize)
            } else {
                Some(aa)
            },
            None => Some(order.price as usize),
        }),
    ensures
        b.wf(),
{
    let sd = order.order_side;
    let op = sd.spec_opposite();
    let pi = order.price as int;
    assert(b.levels() == a.levels());

    // shape
    assert forall|i: int|
        0 <= i < b.levels() implies (#[trigger] b.bids@[i]).wf() && b.bids@[i].capacity()
        == b.config.queue_size by {
        if sd == OrderSide::Buy && i == pi {
        } else {
            assert(b.queues_of(OrderSide::Buy)[i] == a.queues_of(OrderSide::Buy)[i]);
        }
    }
    assert forall|i: int|
        0 <= i < b.levels() implies (#[trigger] b.asks@[i]).wf() && b.asks@[i].capacity()
        == b.config.queue_size by {
        if sd == OrderSide::Sell && i == pi {
        } else {
            assert(b.queues_of(OrderSide::Sell)[i] == a.queues_of(OrderSide::Sell)[i]);
        }
    }
    assert(b.shape_ok());

    // queue entries, both sides
    assert forall|sd2: OrderSide, i: int, j: int|
        0 <= i < b.levels() && 0 <= j < b.queue_at(sd2, i).len() implies b.entry_ok(
        sd2,
        i,
        #[trigger] b.queue_at(sd2, i)[j],
    ) by {
        if sd2 == sd && i == pi {
            if j < a.queue_at(sd, pi).len() {
                assert(b.queue_at(sd, pi)[j] == a.queue_at(sd, pi)[j]);
                assert(a.entry_ok(sd, pi, a.queue_at(sd, pi)[j]));
                assert(a.queue_at(sd, pi)[j] != k);
            } else {
                assert(b.queue_at(sd, pi)[j] == k);
            }
        } else {
            assert(b.queue_at(sd2, i) == a.queue_at(sd2, i));
            assert(a.entry_ok(sd2, i, a.queue_at(sd2, i)[j]));
            assert(a.queue_at(sd2, i)[j] != k);
        }
    }
    assert forall|sd2: OrderSide, i: int, j1: int, j2: int|
        0 <= i < b.levels() && 0 <= j1 < j2 < b.queue_at(sd2, i).len() implies #[trigger] b.queue_at(
        sd2,
        i,
    )[j1] != #[trigger] b.queue_at(sd2, i)[j2] by {
        if sd2 == sd && i == pi {
            if j2 < a.queue_at(sd, pi).len() {
                assert(a.queue_at(sd, pi)[j1] != a.queue_at(sd, pi)[j2]);
            } else {
                assert(b.queue_at(sd, pi)[j2] == k);
                assert(a.entry_ok(sd, pi, a.queue_at(sd, pi)[j1]));
                assert(a.queue_at(sd, pi)[j1] != k);
            }
        } else {
            assert(b.queue_at(sd2, i) == a.queue_at(sd2, i));
            assert(a.queue_at(sd2, i)[j1] != a.queue_at(sd2, i)[j2]);
        }
    }
    assert(b.side_queues_ok(OrderSide::Buy));
    assert(b.side_queues_ok(OrderSide::Sell));

    // every ledger entry sits in its queue
    assert forall|k2: usize| #[trigger] b.ledger().contains_key(k2) implies {
        &&& 0 <= (b.ledger()[k2].price as int) < b.levels()
        &&& b.queue_at(b.ledger()[k2].order_side, b.ledger()[k2].price as int).contains(k2)
    } by {
        if k2 == k {
            assert(b.queue_at(sd, pi).last() == k);
        } else {
            assert(a.ledger().contains_key(k2));
            let o = a.ledger()[k2];
            assert(a.queue_at(o.order_side, o.price as int).contains(k2));
            if o.order_side == sd && o.price as int == pi {
                lemma_seq_push_contains(a.queue_at(sd, pi), k, k2);
            } else {
                assert(b.queue_at(o.order_side, o.price as int) == a.queue_at(
                    o.order_side,
                    o.price as int,
                ));
            }
        }
    }

    // mappings stay a bijection
    assert forall|k2: usize| #[trigger]
        b.ledger().contains_key(k2) implies b.index_mappings@.contains_key(
        b.ledger()[k2].order_id,
    ) && b.index_mappings@[b.ledger()[k2].order_id] == k2 by {
        if k2 != k {
            assert(a.ledger().contains_key(k2));
            assert(a.index_mappings@[a.ledger()[k2].order_id] == k2);
            assert(a.ledger()[k2].order_id != order.order_id);
        }
    }
    assert forall|id: u64| #[trigger]
        b.index_mappings@.contains_key(id) implies b.ledger().contains_key(b.index_mappings@[id])
        && b.ledger()[b.index_mappings@[id]].order_id == id by {
        if id != order.order_id {
            assert(a.index_mappings@.contains_key(id));
            assert(a.ledger().contains_key(a.index_mappings@[id]));
            assert(a.index_mappings@[id] != k);
        }
    }
    assert(b.mappings_ok());

    // active bits
    assert forall|n: int| #[trigger]
        b.active_of(sd).spec_is_set(n) <==> (0 <= n < b.levels() && b.queue_at(sd, n).len()
        > 0) by {
        lemma_active_iff(a, sd, n);
        if n != pi {
            assert(0 <= n < b.levels() ==> b.queue_at(sd, n) == a.queue_at(sd, n));
        }
    }
    assert forall|n: int| #[trigger]
        b.active_of(op).spec_is_set(n) <==> (0 <= n < b.levels() && b.queue_at(op, n).len()
        > 0) by {
        lemma_active_iff(a, op, n);
        assert(0 <= n < b.levels() ==> b.queue_at(op, n) == a.queue_at(op, n));
    }
    lemma_active_ok_from_sides(b, sd);
    assert(b.active_ok());

    // best-price bounds
    match sd {
        OrderSide::Buy => {
            let nb = b.best_bid_index->Some_0;
            assert forall|n: int| #[trigger]
                b.active_bids.spec_is_set(n) implies n <= nb as int by {
                assert(b.active_of(OrderSide::Buy).spec_is_set(n));
                if n != pi {
                    assert(a.active_bids.spec_is_set(n));
                }
            }
            assert(b.bid_bound_ok());
            lemma_ask_bound_frame(a, b);
        }
        OrderSide::Sell => {
            let na = b.best_ask_index->Some_0;
            assert forall|n: int| #[trigger]
                b.active_asks.spec_is_set(n) implies n >= na as int by {
                assert(b.active_of(OrderSide::Sell).spec_is_set(n));
                if n != pi {
                    assert(a.active_asks.spec_is_set(n));
                }
            }
            assert(b.ask_bound_ok());
            lemma_bid_bound_frame(a, b);
        }
    }
}


/// A matching outcome is unaffected by afterwards appending to the trade
/// history: every field the relation reads is unchanged between `mid` and
/// `post`.
proof fn lemma_match_outcome_history_frame(
    pre: FixedPriceOrderBook,
    mid: FixedPriceOrderBook,
    post: FixedPriceOrderBook,
    opre: Order,
    opost: Order,
    fills: Seq<OrderFill>,
    lo: int,
    hi: int,
)
    requires
        match_outcome(pre, mid, opre, opost, fills, lo, hi),
        post == (FixedPriceOrderBook { trade_history: post.trade_history, ..mid }),
    ensures
        match_outcome(pre, post, opre, opost, fills, lo, hi),
{
    let ms = opre.order_side.spec_opposite();
    assert forall|n: int| lo <= n <= hi implies post.level_qty(ms, n) == #[trigger] mid.level_qty(
        ms,
        n,
    ) by {
        assert(post.queue_at(ms, n) == mid.queue_at(ms, n));
        assert(post.ledger() == mid.ledger());
    }
    lemma_range_qty_same_levels(post, mid, ms, lo, hi);
    assert(post.queues_of(opre.order_side) == mid.queues_of(opre.order_side));
    assert(post.queues_of(ms) == mid.queues_of(ms));
    assert forall|n: int|
        opost.quantity > 0 && lo <= n <= hi implies #[trigger] post.queue_at(ms, n).len()
        == 0 by {
        assert(mid.queue_at(ms, n).len() == 0);
        assert(post.queue_at(ms, n) == mid.queue_at(ms, n));
    }
    assert forall|n: int|
        lo <= n <= hi implies #[trigger] queue_suffix_of(
        post.queue_at(ms, n),
        pre.queue_at(ms, n),
    ) by {
        assert(queue_suffix_of(mid.queue_at(ms, n), pre.queue_at(ms, n)));
        assert(post.queue_at(ms, n) == mid.queue_at(ms, n));
    }
}


/// Re-establishes the book invariants after a cancellation: `b` is `a` with
/// the entry at ledger index `k` (the one `order_id` names) removed from
/// the ledger, from the index mapping, and from its level's queue, the
/// level's bit cleared when the queue emptied.
proof fn lemma_cancel_wrapup(
    a: FixedPriceOrderBook,
    b: FixedPriceOrderBook,
    order_id: u64,
    k: usize,
)
    requires
        a.wf(),
        a.index_mappings@.contains_key(order_id),
        a.index_mappings@[order_id] == k,
        a.ledger().contains_key(k),
        b.ledger() == a.ledger().remove(k),
        b.index_mappings@ == a.index_mappings@.remove(order_id),
        b.config == a.config,
        ({
            let o = a.ledger()[k];
            let sd = o.order_side;
            let pi = o.price as int;
            &&& (exists|j: int|
                0 <= j < a.queue_at(sd, pi).len() && a.queue_at(sd, pi)[j] == k && b.queue_at(
                    sd,
                    pi,
                ) == a.queue_at(sd, pi).remove(j))
            &&& b.queues_of(sd) == a.queues_of(sd).update(pi, b.queues_of(sd)[pi])
            &&& b.queues_of(sd)[pi].wf()
            &&& b.queues_of(sd)[pi].capacity() == a.config.queue_size
            &&& b.queues_of(sd.spec_opposite()) == a.queues_of(sd.spec_opposite())
            &&& (b.queue_at(sd, pi).len() == 0 ==> forall|n: int|
                #![trigger b.active_of(sd).spec_is_set(n)]
                b.active_of(sd).spec_is_set(n) == (a.active_of(sd).spec_is_set(n) && n != pi))
            &&& (b.queue_at(sd, pi).len() > 0 ==> b.active_of(sd) == a.active_of(sd))
            &&& b.active_of(sd).wf()
            &&& b.active_of(sd).nbits == a.active_of(sd).nbits
            &&& b.active_of(sd.spec_opposite()) == a.active_of(sd.spec_opposite())
        }),
        b.best_bid_index == a.best_bid_index,
        b.best_ask_index == a.best_ask_index,
    ensures
        b.wf(),
{
    let o = a.ledger()[k];
    let sd = o.order_side;
    let op = sd.spec_opposite();
    let pi = o.price as int;
    assert(b.levels() == a.levels());
    let j = choose|j: int|
        0 <= j < a.queue_at(sd, pi).len() && a.queue_at(sd, pi)[j] == k && b.queue_at(sd, pi)
            == a.queue_at(sd, pi).remove(j);

    // the removed index appears nowhere else in its queue
    assert forall|m: int|
        0 <= m < b.queue_at(sd, pi).len() implies #[trigger] b.queue_at(sd, pi)[m] != k
        && (exists|m0: int|
        0 <= m0 < a.queue_at(sd, pi).len() && a.queue_at(sd, pi)[m0] == b.queue_at(sd, pi)[m]
            && m0 != j) by {
        if m < j {
            assert(b.queue_at(sd, pi)[m] == a.queue_at(sd, pi)[m]);
            assert(a.queue_at(sd, pi)[m] != a.queue_at(sd, pi)[j]);
        } else {
            assert(b.queue_at(sd, pi)[m] == a.queue_at(sd, pi)[m + 1]);
            assert(a.queue_at(sd, pi)[m + 1] != a.queue_at(sd, pi)[j]);
        }
    }

    // shape
    assert forall|i: int|
        0 <= i < b.levels() implies (#[trigger] b.bids@[i]).wf() && b.bids@[i].capacity()
        == b.config.queue_size by {
        if sd == OrderSide::Buy && i == pi {
        } else {
            assert(b.queues_of(OrderSide::Buy)[i] == a.queues_of(OrderSide::Buy)[i]);
        }
    }
    assert forall|i: int|
        0 <= i < b.levels() implies (#[trigger] b.asks@[i]).wf() && b.asks@[i].capacity()
        == b.config.queue_size by {
        if sd == OrderSide::Sell && i == pi {
        } else {
            assert(b.queues_of(OrderSide::Sell)[i] == a.queues_of(OrderSide::Sell)[i]);
        }
    }
    assert(b.shape_ok());

    // queue entries, both sides
    assert forall|sd2: OrderSide, i: int, m: int|
        0 <= i < b.levels() && 0 <= m < b.queue_at(sd2, i).len() implies b.entry_ok(
        sd2,
        i,
        #[trigger] b.queue_at(sd2, i)[m],
    ) by {
        if sd2 == sd && i == pi {
            let x = b.queue_at(sd, pi)[m];
            assert(x != k);
            let m0 = if m < j {
                m
            } else {
                m + 1
            };
            assert(a.queue_at(sd, pi)[m0] == x);
            assert(a.entry_ok(sd, pi, x));
        } else {
            assert(b.queue_at(sd2, i) == a.queue_at(sd2, i));
            match sd2 {
                OrderSide::Buy => {
                    assert(a.entry_ok(OrderSide::Buy, i, a.queue_at(OrderSide::Buy, i)[m]));
                }
                OrderSide::Sell => {
                    assert(a.entry_ok(OrderSide::Sell, i, a.queue_at(OrderSide::Sell, i)[m]));
                }
            }
            assert(a.queue_at(sd2, i)[m] != k) by {
                if a.queue_at(sd2, i)[m] == k {
                    assert(a.ledger()[k].order_side == sd2 && a.ledger()[k].price as int == i);
                }
            }
        }
    }
    assert forall|sd2: OrderSide, i: int, m1: int, m2: int|
        0 <= i < b.levels() && 0 <= m1 < m2 < b.queue_at(sd2, i).len() implies #[trigger] b.queue_at(
        sd2,
        i,
    )[m1] != #[trigger] b.queue_at(sd2, i)[m2] by {
        if sd2 == sd && i == pi {
            let n1 = if m1 < j {
                m1
            } else {
                m1 + 1
            };
            let n2 = if m2 < j {
                m2
            } else {
                m2 + 1
            };
            assert(b.queue_at(sd, pi)[m1] == a.queue_at(sd, pi)[n1]);
            assert(b.queue_at(sd, pi)[m2] == a.queue_at(sd, pi)[n2]);
            assert(a.queue_at(sd, pi)[n1] != a.queue_at(sd, pi)[n2]);
        } else {
            assert(b.queue_at(sd2, i) == a.queue_at(sd2, i));
            match sd2 {
                OrderSide::Buy => {
                    assert(a.queue_at(OrderSide::Buy, i)[m1] != a.queue_at(OrderSide::Buy, i)[m2]);
                }
                OrderSide::Sell => {
                    assert(a.queue_at(OrderSide::Sell, i)[m1] != a.queue_at(
                        OrderSide::Sell,
                        i,
                    )[m2]);
                }
            }
        }
    }
    assert(b.side_queues_ok(OrderSide::Buy));
    assert(b.side_queues_ok(OrderSide::Sell));

    // every surviving ledger entry still sits in its queue
    assert forall|k2: usize| #[trigger] b.ledger().contains_key(k2) implies {
        &&& 0 <= (b.ledger()[k2].price as int) < b.levels()
        &&& b.queue_at(b.ledger()[k2].order_side, b.ledger()[k2].price as int).contains(k2)
    } by {
        assert(k2 != k);
        assert(a.ledger().contains_key(k2));
        let o2 = a.ledger()[k2];
        assert(a.queue_at(o2.order_side, o2.price as int).contains(k2));
        if o2.order_side == sd && o2.price as int == pi {
            let m0 = choose|m0: int|
                0 <= m0 < a.queue_at(sd, pi).len() && a.queue_at(sd, pi)[m0] == k2;
            if m0 < j {
                assert(b.queue_at(sd, pi)[m0] == k2);
            } else {
                assert(m0 != j);
                assert(b.queue_at(sd, pi)[m0 - 1] == k2);
            }
        } else {
            assert(b.queue_at(o2.order_side, o2.price as int) == a.queue_at(
                o2.order_side,
                o2.price as int,
            ));
        }
    }

    // mappings stay a bijection
    assert forall|k2: usize| #[trigger]
        b.ledger().contains_key(k2) implies b.index_mappings@.contains_key(
        b.ledger()[k2].order_id,
    ) && b.index_mappings@[b.ledger()[k2].order_id] == k2 by {
        assert(k2 != k);
        assert(a.ledger().contains_key(k2));
        assert(a.index_mappings@[a.ledger()[k2].order_id] == k2);
        assert(a.index_mappings@[order_id] == k);
        assert(a.ledger()[k2].order_id != order_id);
    }
    assert forall|id: u64| #[trigger]
        b.index_mappings@.contains_key(id) implies b.ledger().contains_key(b.index_mappings@[id])
        && b.ledger()[b.index_mappings@[id]].order_id == id by {
        assert(id != order_id);
        assert(a.index_mappings@.contains_key(id));
        assert(a.ledger().contains_key(a.index_mappings@[id]));
        if a.index_mappings@[id] == k {
            assert(a.ledger()[k].order_id == id);
            assert(a.index_mappings@[a.ledger()[k].order_id] == k);
            assert(false);
        }
    }
    assert(b.mappings_ok());

    // active bits
    assert forall|n: int| #[trigger]
        b.active_of(sd).spec_is_set(n) <==> (0 <= n < b.levels() && b.queue_at(sd, n).len()
        > 0) by {
        lemma_active_iff(a, sd, n);
        if n != pi {
            assert(0 <= n < b.levels() ==> b.queue_at(sd, n) == a.queue_at(sd, n));
        } else {
            if b.queue_at(sd, pi).len() == 0 {
                assert(!b.active_of(sd).spec_is_set(n));
            } else {
                assert(a.queue_at(sd, pi).len() > 0);
            }
        }
    }
    assert forall|n: int| #[trigger]
        b.active_of(op).spec_is_set(n) <==> (0 <= n < b.levels() && b.queue_at(op, n).len()
        > 0) by {
        lemma_active_iff(a, op, n);
        assert(0 <= n < b.levels() ==> b.queue_at(op, n) == a.queue_at(op, n));
    }
    lemma_active_ok_from_sides(b, sd);
    assert(b.active_ok());

    // best-price bounds survive since bits are only cleared
    assert forall|n: int| #[trigger]
        b.active_bids.spec_is_set(n) implies a.active_bids.spec_is_set(n) by {
        if sd == OrderSide::Buy {
            assert(b.active_of(OrderSide::Buy) == b.active_bids);
            if b.queue_at(sd, pi).len() == 0 {
                assert(b.active_of(sd).spec_is_set(n) == (a.active_of(sd).spec_is_set(n) && n
                    != pi));
            }
        }
    }
    assert forall|n: int| #[trigger]
        b.active_asks.spec_is_set(n) implies a.active_asks.spec_is_set(n) by {
        if sd == OrderSide::Sell {
            assert(b.active_of(OrderSide::Sell) == b.active_asks);
            if b.queue_at(sd, pi).len() == 0 {
                assert(b.active_of(sd).spec_is_set(n) == (a.active_of(sd).spec_is_set(n) && n
                    != pi));
            }
        }
    }
    lemma_bid_bound_shrink(a, b);
    lemma_ask_bound_shrink(a, b);
}

/// The bid-cache bound carries across books equal on the bid cache and
/// bitset.
proof fn lemma_bid_bound_frame(a: FixedPriceOrderBook, b: FixedPriceOrderBook)
    requires
        b.config == a.config,
        b.best_bid_index == a.best_bid_index,
        b.active_bids == a.active_bids,
        a.bid_bound_ok(),
    ensures
        b.bid_bound_ok(),
{
    match b.best_bid_index {
        Some(bb) => {
            assert forall|i: int| #[trigger]
                b.active_bids.spec_is_set(i) implies i <= bb as int by {
                assert(a.active_bids.spec_is_set(i));
            }
        }
        None => {
            assert forall|i: int| !(#[trigger] b.active_bids.spec_is_set(i)) by {
                assert(!a.active_bids.spec_is_set(i));
            }
        }
    }
}

/// The ask-cache bound carries across books equal on the ask cache and
/// bitset.
proof fn lemma_ask_bound_frame(a: FixedPriceOrderBook, b: FixedPriceOrderBook)
    requires
        b.config == a.config,
        b.best_ask_index == a.best_ask_index,
        b.active_asks == a.active_asks,
        a.ask_bound_ok(),
    ensures
        b.ask_bound_ok(),
{
    match b.best_ask_index {
        Some(aa) => {
            assert forall|i: int| #[trigger]
                b.active_asks.spec_is_set(i) implies i >= aa as int by {
                assert(a.active_asks.spec_is_set(i));
            }
        }
        None => {
            assert forall|i: int| !(#[trigger] b.active_asks.spec_is_set(i)) by {
                assert(!a.active_asks.spec_is_set(i));
            }
        }
    }
}


/// Appending a fill adds its quantity to the total.
proof fn lemma_fills_qty_push(s: Seq<OrderFill>, f: OrderFill)
    ensures
        fills_qty(s.push(f)) == fills_qty(s) + f.quantity,
{
    assert(s.push(f).drop_last() =~= s);
    assert(s.push(f).last() == f);
}

/// Appending an index adds its entry's quantity to a queue total.
proof fn lemma_queue_qty_push(l: Map<usize, Order>, q: Seq<usize>, k: usize)
    ensures
        queue_qty(l, q.push(k)) == queue_qty(l, q) + entry_qty(l, k),
    decreases q.len(),
{
    assert(queue_qty(l, q.push(k)) == entry_qty(l, q.push(k)[0]) + queue_qty(
        l,
        q.push(k).drop_first(),
    ));
    if q.len() == 0 {
        assert(q.push(k)[0] == k);
        assert(q.push(k).drop_first() =~= Seq::<usize>::empty());
        assert(queue_qty(l, Seq::<usize>::empty()) == 0);
    } else {
        assert(q.push(k)[0] == q[0]);
        assert(q.push(k).drop_first() =~= q.drop_first().push(k));
        lemma_queue_qty_push(l, q.drop_first(), k);
    }
}

/// Prepending an index adds its entry's quantity to a queue total.
proof fn lemma_queue_qty_insert_front(l: Map<usize, Order>, q: Seq<usize>, k: usize)
    ensures
        queue_qty(l, q.insert(0, k)) == entry_qty(l, k) + queue_qty(l, q),
{
    assert(q.insert(0, k)[0] == k);
    assert(q.insert(0, k).drop_first() =~= q);
}

/// Queue totals agree between two ledgers that agree on every entry the
/// queue references.
proof fn lemma_queue_qty_same_entries(l1: Map<usize, Order>, l2: Map<usize, Order>, q: Seq<usize>)
    requires
        forall|j: int| 0 <= j < q.len() ==> entry_qty(l1, #[trigger] q[j]) == entry_qty(l2, q[j]),
    ensures
        queue_qty(l1, q) == queue_qty(l2, q),
    decreases q.len(),
{
    if q.len() > 0 {
        assert(entry_qty(l1, q[0]) == entry_qty(l2, q[0]));
        assert forall|j: int|
            0 <= j < q.drop_first().len() implies entry_qty(l1, #[trigger] q.drop_first()[j])
            == entry_qty(l2, q.drop_first()[j]) by {
            assert(q.drop_first()[j] == q[j + 1]);
        }
        lemma_queue_qty_same_entries(l1, l2, q.drop_first());
    }
}

/// A queue whose referenced entries all have non-negative quantity has a
/// non-negative total.
proof fn lemma_queue_qty_nonneg(l: Map<usize, Order>, q: Seq<usize>)
    requires
        forall|j: int| 0 <= j < q.len() ==> entry_qty(l, #[trigger] q[j]) >= 0,
    ensures
        queue_qty(l, q) >= 0,
    decreases q.len(),
{
    if q.len() > 0 {
        assert(entry_qty(l, q[0]) >= 0);
        assert forall|j: int|
            0 <= j < q.drop_first().len() implies entry_qty(l, #[trigger] q.drop_first()[j])
            >= 0 by {
            assert(q.drop_first()[j] == q[j + 1]);
        }
        lemma_queue_qty_nonneg(l, q.drop_first());
    }
}

/// A range total over well-formed queues is non-negative.
proof fn lemma_range_qty_nonneg(book: FixedPriceOrderBook, side: OrderSide, lo: int, hi: int)
    requires
        book.side_queues_ok(side),
        0 <= lo,
        hi < book.levels(),
    ensures
        book.range_qty(side, lo, hi) >= 0,
    decreases hi - lo + 1,
{
    if lo <= hi {
        assert forall|j: int|
            0 <= j < book.queue_at(side, lo).len() implies entry_qty(
            book.ledger(),
            #[trigger] book.queue_at(side, lo)[j],
        ) >= 0 by {
            assert(book.entry_ok(side, lo, book.queue_at(side, lo)[j]));
        }
        lemma_queue_qty_nonneg(book.ledger(), book.queue_at(side, lo));
        lemma_range_qty_nonneg(book, side, lo + 1, hi);
    }
}

/// A range total splits at any point inside it.
proof fn lemma_range_qty_split(
    book: FixedPriceOrderBook,
    side: OrderSide,
    lo: int,
    mid: int,
    hi: int,
)
    requires
        lo - 1 <= mid <= hi,
    ensures
        book.range_qty(side, lo, hi) == book.range_qty(side, lo, mid) + book.range_qty(
            side,
            mid + 1,
            hi,
        ),
    decreases mid - lo + 1,
{
    if lo <= mid {
        lemma_range_qty_split(book, side, lo + 1, mid, hi);
    }
}

/// Range totals agree between two books whose per-level totals agree on the
/// range.
proof fn lemma_range_qty_same_levels(
    a: FixedPriceOrderBook,
    b: FixedPriceOrderBook,
    side: OrderSide,
    lo: int,
    hi: int,
)
    requires
        forall|i: int| lo <= i <= hi ==> a.level_qty(side, i) == b.level_qty(side, i),
    ensures
        a.range_qty(side, lo, hi) == b.range_qty(side, lo, hi),
    decreases hi - lo + 1,
{
    if lo <= hi {
        assert(a.level_qty(side, lo) == b.level_qty(side, lo));
        lemma_range_qty_same_levels(a, b, side, lo + 1, hi);
    }
}


/// Quantity conservation: an aggressive order's initial quantity is the sum
/// of the quantities of the fills its traversal produced plus its remaining
/// quantity at exit.
pub proof fn lemma_aggressor_quantity_conserved(
    pre: FixedPriceOrderBook,
    post: FixedPriceOrderBook,
    opre: Order,
    opost: Order,
    fills: Seq<OrderFill>,
    lo: int,
    hi: int,
)
    requires
        match_outcome(pre, post, opre, opost, fills, lo, hi),
        pre.side_queues_ok(opre.order_side.spec_opposite()),
        0 <= lo,
        hi < pre.levels(),
    ensures
        opre.quantity as int == fills_qty(fills) + opost.quantity as int,
{
    lemma_range_qty_nonneg(pre, opre.order_side.spec_opposite(), lo, hi);
}

/// Price-time priority across levels: the fills one aggressive order
/// produces have non-decreasing prices when the aggressor buys and
/// non-increasing prices when it sells.
pub proof fn lemma_fill_price_monotone(
    pre: FixedPriceOrderBook,
    post: FixedPriceOrderBook,
    opre: Order,
    opost: Order,
    fills: Seq<OrderFill>,
    lo: int,
    hi: int,
)
    requires
        match_outcome(pre, post, opre, opost, fills, lo, hi),
    ensures
        opre.order_side == OrderSide::Buy ==> fills_price_ascending(fills),
        opre.order_side == OrderSide::Sell ==> fills_price_descending(fills),
{
}

/// Active-level accuracy: in a well-formed book a tick's bit is set on a
/// side exactly when that side's queue there is non-empty, so a set bit on
/// either side signals resting liquidity at the tick.
pub proof fn lemma_active_levels_accurate(book: FixedPriceOrderBook)
    requires
        book.wf(),
    ensures
        forall|i: int|
            0 <= i < book.levels() ==> ((book.active_bids.spec_is_set(i)
                || book.active_asks.spec_is_set(i)) <==> (#[trigger] book.queue_at(
                OrderSide::Buy,
                i,
            ).len() > 0 || book.queue_at(OrderSide::Sell, i).len() > 0)),
{
    assert forall|i: int|
        0 <= i < book.levels() implies ((book.active_bids.spec_is_set(i)
        || book.active_asks.spec_is_set(i)) <==> (#[trigger] book.queue_at(OrderSide::Buy, i).len()
        > 0 || book.queue_at(OrderSide::Sell, i).len() > 0)) by {
        lemma_active_iff(book, OrderSide::Buy, i);
        lemma_active_iff(book, OrderSide::Sell, i);
    }
}

/// Ledger integrity: a ledger index occupies at most one queue position
/// across both sides of a well-formed book — two positions holding the same
/// index are the same position.
pub proof fn lemma_ledger_index_in_one_queue(
    book: FixedPriceOrderBook,
    side1: OrderSide,
    i1: int,
    j1: int,
    side2: OrderSide,
    i2: int,
    j2: int,
)
    requires
        book.wf(),
        0 <= i1 < book.levels(),
        0 <= j1 < book.queue_at(side1, i1).len(),
        0 <= i2 < book.levels(),
        0 <= j2 < book.queue_at(side2, i2).len(),
        book.queue_at(side1, i1)[j1] == book.queue_at(side2, i2)[j2],
    ensures
        side1 == side2,
        i1 == i2,
        j1 == j2,
{
    let k = book.queue_at(side1, i1)[j1];
    match side1 {
        OrderSide::Buy => {
            assert(book.entry_ok(OrderSide::Buy, i1, book.queue_at(OrderSide::Buy, i1)[j1]));
        }
        OrderSide::Sell => {
            assert(book.entry_ok(OrderSide::Sell, i1, book.queue_at(OrderSide::Sell, i1)[j1]));
        }
    }
    match side2 {
        OrderSide::Buy => {
            assert(book.entry_ok(OrderSide::Buy, i2, book.queue_at(OrderSide::Buy, i2)[j2]));
        }
        OrderSide::Sell => {
            assert(book.entry_ok(OrderSide::Sell, i2, book.queue_at(OrderSide::Sell, i2)[j2]));
        }
    }
    assert(book.ledger()[k].order_side == side1 && book.ledger()[k].order_side == side2);
    assert(book.ledger()[k].price as int == i1 && book.ledger()[k].price as int == i2);
    if j1 != j2 {
        match side1 {
            OrderSide::Buy => {
                if j1 < j2 {
                    assert(book.queue_at(OrderSide::Buy, i1)[j1] != book.queue_at(
                        OrderSide::Buy,
                        i1,
                    )[j2]);
                } else {
                    assert(book.queue_at(OrderSide::Buy, i1)[j2] != book.queue_at(
                        OrderSide::Buy,
                        i1,
                    )[j1]);
                }
            }
            OrderSide::Sell => {
                if j1 < j2 {
                    assert(book.queue_at(OrderSide::Sell, i1)[j1] != book.queue_at(
                        OrderSide::Sell,
                        i1,
                    )[j2]);
                } else {
                    assert(book.queue_at(OrderSide::Sell, i1)[j2] != book.queue_at(
                        OrderSide::Sell,
                        i1,
                    )[j1]);
                }
            }
        }
    }
}


/// Price-time priority within a level: a traversal consumes each level's
/// queue from the front only, so what remains is a suffix of what rested
/// there, in arrival order.
pub proof fn lemma_level_consumed_from_front(
    pre: FixedPriceOrderBook,
    post: FixedPriceOrderBook,
    opre: Order,
    opost: Order,
    fills: Seq<OrderFill>,
    lo: int,
    hi: int,
    n: int,
)
    requires
        match_outcome(pre, post, opre, opost, fills, lo, hi),
        lo <= n <= hi,
    ensures
        queue_suffix_of(
            post.queue_at(opre.order_side.spec_opposite(), n),
            pre.queue_at(opre.order_side.spec_opposite(), n),
        ),
{
}

} // verus!
