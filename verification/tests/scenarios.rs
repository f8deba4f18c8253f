use orderbook::enums::order_book_errors::OrderBookError;
use orderbook::enums::order_side::OrderSide;
use orderbook::enums::order_status::OrderStatus;
use orderbook::enums::order_type::OrderType;
use orderbook::fixed_price_order_book::FixedPriceOrderBook;
use orderbook::models::order::Order;
use orderbook::models::order_book_config::OrderBookConfig;

fn wide_book() -> FixedPriceOrderBook {
    let config = OrderBookConfig { min_price: 0, max_price: 10000, tick_size: 1, queue_size: 128 };
    FixedPriceOrderBook::new(config).unwrap()
}

fn limit(order_id: u64, side: OrderSide, price: u32, quantity: i32) -> Order {
    Order {
        order_id,
        order_type: OrderType::Limit,
        order_status: OrderStatus::PendingNew,
        order_side: side,
        user_id: 0,
        price,
        quantity,
    }
}

#[test]
fn test_new_errors_invalid_config_data() {
    let no_tick = OrderBookConfig { min_price: 0, max_price: 100, tick_size: 0, queue_size: 8 };
    assert_eq!(FixedPriceOrderBook::new(no_tick).err().unwrap(), OrderBookError::InvalidConfigData);

    let empty_span = OrderBookConfig { min_price: 50, max_price: 50, tick_size: 1, queue_size: 8 };
    assert_eq!(
        FixedPriceOrderBook::new(empty_span).err().unwrap(),
        OrderBookError::InvalidConfigData
    );

    let uneven = OrderBookConfig { min_price: 0, max_price: 100, tick_size: 3, queue_size: 8 };
    assert_eq!(FixedPriceOrderBook::new(uneven).err().unwrap(), OrderBookError::InvalidConfigData);

    let fine = OrderBookConfig { min_price: 100, max_price: 400, tick_size: 3, queue_size: 8 };
    let book = FixedPriceOrderBook::new(fine).unwrap();
    assert_eq!(book.bids.len(), 101);
    assert_eq!(book.asks.len(), 101);
}

#[test]
fn test_exact_full_fill_clears_level_and_active_bit() {
    let mut book = wide_book();

    book.add_order(limit(0, OrderSide::Sell, 10000, 800)).unwrap();
    assert!(book.active_asks.is_set(10000));

    let mut taker = limit(1, OrderSide::Buy, 10000, 800);
    taker.order_type = OrderType::Market;
    book.add_order(taker).unwrap();

    assert_eq!(book.trade_history.len(), 1);
    assert_eq!(book.trade_history[0].aggressive_order_id, 1);
    assert_eq!(book.trade_history[0].resting_order_id, 0);
    assert_eq!(book.trade_history[0].price, 10000);
    assert_eq!(book.trade_history[0].quantity, 800);
    assert!(book.asks[10000].is_empty());
    assert!(!book.active_asks.is_set(10000));
}

#[test]
fn test_partial_fill_leaves_remainder_at_front_of_queue() {
    let mut book = wide_book();

    book.add_order(limit(0, OrderSide::Sell, 10000, 800)).unwrap();

    let mut taker = limit(1, OrderSide::Buy, 10000, 300);
    taker.order_type = OrderType::Market;
    book.add_order(taker).unwrap();

    assert_eq!(book.trade_history.len(), 1);
    assert_eq!(book.trade_history[0].quantity, 300);
    let front = book.asks[10000].front().unwrap();
    assert_eq!(book.order_ledger[front].order_id, 0);
    assert_eq!(book.order_ledger[front].quantity, 500);
    assert!(book.active_asks.is_set(10000));
}

#[test]
fn test_buy_fill_prices_ascend_across_levels() {
    let mut book = wide_book();

    book.add_order(limit(0, OrderSide::Sell, 9000, 100)).unwrap();
    book.add_order(limit(1, OrderSide::Sell, 8000, 100)).unwrap();
    book.add_order(limit(2, OrderSide::Sell, 9500, 100)).unwrap();

    book.add_order(limit(3, OrderSide::Buy, 10000, 250)).unwrap();

    assert_eq!(book.trade_history.len(), 3);
    assert_eq!(book.trade_history[0].price, 8000);
    assert_eq!(book.trade_history[1].price, 9000);
    assert_eq!(book.trade_history[2].price, 9500);
    assert_eq!(book.trade_history[2].quantity, 50);
    assert!(book.trade_history[0].timestamp < book.trade_history[1].timestamp);
    assert!(book.trade_history[1].timestamp < book.trade_history[2].timestamp);
}

#[test]
fn test_sell_fill_prices_descend_across_levels() {
    let mut book = wide_book();

    book.add_order(limit(0, OrderSide::Buy, 7000, 100)).unwrap();
    book.add_order(limit(1, OrderSide::Buy, 7500, 100)).unwrap();

    book.add_order(limit(2, OrderSide::Sell, 6000, 150)).unwrap();

    assert_eq!(book.trade_history.len(), 2);
    assert_eq!(book.trade_history[0].price, 7500);
    assert_eq!(book.trade_history[1].price, 7000);
    assert_eq!(book.trade_history[1].quantity, 50);
}

#[test]
fn test_aggressor_quantity_is_conserved_into_fills_and_remainder() {
    let mut book = wide_book();

    book.add_order(limit(0, OrderSide::Sell, 9999, 120)).unwrap();
    book.add_order(limit(1, OrderSide::Sell, 10000, 80)).unwrap();

    // the buyer asks for 500; 200 fill, 300 rest
    book.add_order(limit(2, OrderSide::Buy, 10000, 500)).unwrap();

    let filled: u32 = book.trade_history.iter().map(|f| f.quantity).sum();
    let rested_index = book.index_mappings[&2];
    let remaining = book.order_ledger[rested_index].quantity;
    assert_eq!(filled as i32 + remaining, 500);
    assert_eq!(book.order_ledger[rested_index].order_status, OrderStatus::PartiallyFilled);
}

#[test]
fn test_same_level_orders_fill_in_arrival_order() {
    let mut book = wide_book();

    book.add_order(limit(0, OrderSide::Sell, 9000, 40)).unwrap();
    book.add_order(limit(1, OrderSide::Sell, 9000, 60)).unwrap();
    let first = book.index_mappings[&0];
    let second = book.index_mappings[&1];
    assert_ne!(first, second);
    assert_eq!(book.asks[9000].get(0), first);
    assert_eq!(book.asks[9000].get(1), second);

    book.add_order(limit(2, OrderSide::Buy, 9000, 50)).unwrap();

    assert_eq!(book.trade_history.len(), 2);
    assert_eq!(book.trade_history[0].resting_order_id, 0);
    assert_eq!(book.trade_history[0].quantity, 40);
    assert_eq!(book.trade_history[1].resting_order_id, 1);
    assert_eq!(book.trade_history[1].quantity, 10);
    assert_eq!(book.asks[9000].len(), 1);
    assert_eq!(book.asks[9000].get(0), second);
}

#[test]
fn test_immediate_or_cancel_never_rests_its_remainder() {
    let mut book = wide_book();

    book.add_order(limit(0, OrderSide::Sell, 10000, 300)).unwrap();

    let mut taker = limit(1, OrderSide::Buy, 10000, 600);
    taker.order_type = OrderType::ImmediateOrCancel;
    book.add_order(taker).unwrap();

    assert_eq!(book.trade_history.len(), 1);
    assert_eq!(book.trade_history[0].quantity, 300);
    assert!(!book.index_mappings.contains_key(&1));
    assert!(book.bids[10000].is_empty());
}

#[test]
fn test_fill_or_kill_fills_its_whole_quantity_or_nothing() {
    let mut book = wide_book();

    book.add_order(limit(0, OrderSide::Sell, 9000, 200)).unwrap();
    book.add_order(limit(1, OrderSide::Sell, 9500, 200)).unwrap();

    let mut big = limit(2, OrderSide::Buy, 9500, 500);
    big.order_type = OrderType::FillOrKill;
    let rejected = book.add_order(big);
    assert_eq!(rejected.err().unwrap(), OrderBookError::CannotFillCompletely);
    assert!(book.trade_history.is_empty());

    let mut fits = limit(3, OrderSide::Buy, 9500, 400);
    fits.order_type = OrderType::FillOrKill;
    book.add_order(fits).unwrap();
    let filled: u32 = book.trade_history.iter().map(|f| f.quantity).sum();
    assert_eq!(filled, 400);
    assert!(!book.index_mappings.contains_key(&3));
}

#[test]
fn test_rest_remaining_limit_order_rejects_non_limit_orders() {
    let mut book = wide_book();

    let mut market = limit(0, OrderSide::Buy, 5000, 100);
    market.order_type = OrderType::Market;
    let rejected = book.rest_remaining_limit_order(market, false);

    assert_eq!(rejected.err().unwrap(), OrderBookError::NonLimitOrderRestAttempt);
}

#[test]
fn test_best_bid_and_best_ask_follow_rests_and_cancels() {
    let mut book = wide_book();

    assert_eq!(book.best_bid(), None);
    assert_eq!(book.best_ask(), None);

    book.add_order(limit(0, OrderSide::Buy, 4000, 10)).unwrap();
    book.add_order(limit(1, OrderSide::Buy, 4500, 10)).unwrap();
    book.add_order(limit(2, OrderSide::Sell, 6000, 10)).unwrap();
    book.add_order(limit(3, OrderSide::Sell, 5500, 10)).unwrap();

    assert_eq!(book.best_bid(), Some(4500));
    assert_eq!(book.best_ask(), Some(5500));

    // cancelling the best on each side forces the bitset fallback
    book.cancel_order(1).unwrap();
    book.cancel_order(3).unwrap();

    assert_eq!(book.best_bid(), Some(4000));
    assert_eq!(book.best_ask(), Some(6000));

    book.cancel_order(0).unwrap();
    book.cancel_order(2).unwrap();

    assert_eq!(book.best_bid(), None);
    assert_eq!(book.best_ask(), None);
}

#[test]
fn test_cancelled_order_leaves_queue_ledger_and_mapping() {
    let mut book = wide_book();

    book.add_order(limit(0, OrderSide::Buy, 5000, 10)).unwrap();
    book.add_order(limit(1, OrderSide::Buy, 5000, 20)).unwrap();
    book.add_order(limit(2, OrderSide::Buy, 5000, 30)).unwrap();
    let first = book.index_mappings[&0];
    let third = book.index_mappings[&2];

    book.cancel_order(1).unwrap();

    assert_eq!(book.bids[5000].len(), 2);
    assert_eq!(book.bids[5000].get(0), first);
    assert_eq!(book.bids[5000].get(1), third);
    assert!(!book.index_mappings.contains_key(&1));
    assert!(book.active_bids.is_set(5000));
}

#[test]
fn test_full_level_rejects_a_resting_order() {
    let config = OrderBookConfig { min_price: 0, max_price: 16, tick_size: 1, queue_size: 2 };
    let mut book = FixedPriceOrderBook::new(config).unwrap();

    book.add_order(limit(0, OrderSide::Buy, 8, 10)).unwrap();
    book.add_order(limit(1, OrderSide::Buy, 8, 10)).unwrap();
    let rejected = book.add_order(limit(2, OrderSide::Buy, 8, 10));

    assert_eq!(rejected.err().unwrap(), OrderBookError::FullRingBuffer);
    assert_eq!(book.bids[8].len(), 2);
    assert!(!book.index_mappings.contains_key(&2));
}
