use vstd::prelude::*;

use crate::enums::order_side::OrderSide;
use crate::enums::order_status::OrderStatus;
use crate::enums::order_type::OrderType;

verus! {

/// An order at the boundary of the core. `order_id`, `user_id`, `order_type`,
/// `order_side` and `price` are identity fields; `quantity` and
/// `order_status` are mutated as fills accumulate. `price` is a tick index;
/// for market orders it is advisory only. A live order always has a
/// non-negative quantity.
#[derive(Clone, Copy, Debug, PartialEq, Eq, Structural)]
pub struct Order {
    pub order_id: u64,
    pub order_type: OrderType,
    pub order_status: OrderStatus,
    pub order_side: OrderSide,
    pub user_id: u32,
    pub price: u32,
    pub quantity: i32,
}

} // verus!
