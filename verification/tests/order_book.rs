use orderbook::enums::order_book_errors::OrderBookError;
use orderbook::enums::order_side::OrderSide;
use orderbook::enums::order_status::OrderStatus;
use orderbook::enums::order_type::OrderType;
use orderbook::fixed_price_order_book::FixedPriceOrderBook;
use orderbook::models::order::Order;
use orderbook::models::order_book_config::OrderBookConfig;
use orderbook::models::ring_buffer::RingBuffer;

#[test]
fn test_fill_order_correctly_fills_aggressive_order_resting_and_aggressive_order_quantities_equal()
{
    let config = OrderBookConfig { min_price: 0, max_price: 10000, tick_size: 1, queue_size: 100 };
    let mut order_book = FixedPriceOrderBook::new(config).unwrap();

    let sell_order = Order {
        order_id: 0,
        order_type: OrderType::Limit,
        order_status: OrderStatus::Active,
        order_side: OrderSide::Sell,
        user_id: 0,
        price: 10000,
        quantity: 800,
    };

    let mut buy_order = Order {
        order_id: 1,
        order_type: OrderType::Market,
        order_status: OrderStatus::PendingNew,
        order_side: OrderSide::Buy,
        user_id: 1,
        price: 10000,
        quantity: 800,
    };

    let price_index = sell_order.price as usize;

    let sell_order_index = order_book.order_ledger.insert(sell_order.clone());
    order_book.asks[price_index].push_back(sell_order_index).unwrap();

    let mut queue = order_book.asks[price_index].clone();
    let mut fills = Vec::new();

    let _popped = queue.pop_front();

    let fill_order_result =
        order_book.fill_order(&mut queue, &mut buy_order, sell_order_index, &mut fills);

    assert!(fill_order_result.is_ok());
    assert!(fill_order_result.unwrap());
    assert!(queue.is_empty());
    assert!(fills.len() == 1);
    assert!(fills[0].aggressive_order_id == buy_order.order_id);
    assert!(fills[0].resting_order_id == sell_order.order_id);
}

#[test]
fn test_fill_order_correctly_fills_aggressive_order_resting_order_quantity_greater_than_aggressive_order_quantity(
) {
    let config = OrderBookConfig { min_price: 0, max_price: 10000, tick_size: 1, queue_size: 100 };
    let mut order_book = FixedPriceOrderBook::new(config).unwrap();

    let sell_order = Order {
        order_id: 0,
        order_type: OrderType::Limit,
        order_status: OrderStatus::Active,
        order_side: OrderSide::Sell,
        user_id: 0,
        price: 10000,
        quantity: 800,
    };

    let mut buy_order = Order {
        order_id: 1,
        order_type: OrderType::Market,
        order_status: OrderStatus::PendingNew,
        order_side: OrderSide::Buy,
        user_id: 1,
        price: 10000,
        quantity: 300,
    };

    let price_index = sell_order.price as usize;

    let sell_order_index = order_book.order_ledger.insert(sell_order.clone());
    order_book.asks[price_index].push_back(sell_order_index).unwrap();

    let mut queue = order_book.asks[price_index].clone();
    let mut fills = Vec::new();

    let _popped = queue.pop_front();

    let fill_order_result =
        order_book.fill_order(&mut queue, &mut buy_order, sell_order_index, &mut fills);

    assert!(fill_order_result.is_ok());
    assert!(fill_order_result.unwrap());
    assert_eq!(queue.len(), 1);
    assert_eq!(queue.get(0), sell_order_index);
    assert_eq!(order_book.order_ledger[sell_order_index].quantity, 500);
    assert_eq!(fills.len(), 1);
    assert_eq!(fills[0].aggressive_order_id, buy_order.order_id);
    assert_eq!(fills[0].resting_order_id, sell_order.order_id);
}

#[test]
fn test_fill_order_correctly_fills_aggressive_order_aggressive_order_quantity_greater_than_resting_order_quantity(
) {
    let config = OrderBookConfig { min_price: 0, max_price: 10000, tick_size: 1, queue_size: 100 };
    let mut order_book = FixedPriceOrderBook::new(config).unwrap();

    let sell_order = Order {
        order_id: 0,
        order_type: OrderType::Limit,
        order_status: OrderStatus::Active,
        order_side: OrderSide::Sell,
        user_id: 0,
        price: 10000,
        quantity: 300,
    };

    let mut buy_order = Order {
        order_id: 1,
        order_type: OrderType::Market,
        order_status: OrderStatus::PendingNew,
        order_side: OrderSide::Buy,
        user_id: 1,
        price: 10000,
        quantity: 800,
    };

    let price_index = sell_order.price as usize;

    let sell_order_index = order_book.order_ledger.insert(sell_order.clone());
    order_book.asks[price_index].push_back(sell_order_index).unwrap();

    let mut queue = order_book.asks[price_index].clone();
    let mut fills = Vec::new();

    let _popped = queue.pop_front();

    let fill_order_result =
        order_book.fill_order(&mut queue, &mut buy_order, sell_order_index, &mut fills);

    assert!(fill_order_result.is_ok());
    assert!(!fill_order_result.unwrap());
    assert!(queue.is_empty());
    assert_eq!(buy_order.quantity, 500);
    assert_eq!(fills.len(), 1);
    assert_eq!(fills[0].aggressive_order_id, buy_order.order_id);
    assert_eq!(fills[0].resting_order_id, sell_order.order_id);
}

#[test]
fn test_add_order_correctly_adds_limit_order_to_empty_order_book() {
    let config = OrderBookConfig { min_price: 0, max_price: 10000, tick_size: 1, queue_size: 100 };
    let mut order_book = FixedPriceOrderBook::new(config).unwrap();

    let mut order = Order {
        order_id: 0,
        order_type: OrderType::Limit,
        order_status: OrderStatus::PendingNew,
        order_side: OrderSide::Sell,
        user_id: 0,
        price: 10000,
        quantity: 300,
    };

    let price_index = order.price as usize;

    let add_order_result = order_book.add_order(order.clone());

    let order_index = order_book.index_mappings[&order.order_id];

    order.order_status = OrderStatus::Active;

    assert!(add_order_result.is_ok());
    assert_eq!(order_book.asks[price_index].len(), 1);
    assert_eq!(order_book.asks[price_index].get(0), order_index);
}

#[test]
fn test_add_order_correctly_executes_order_fill() {
    let config = OrderBookConfig { min_price: 0, max_price: 10000, tick_size: 1, queue_size: 100 };
    let mut order_book = FixedPriceOrderBook::new(config).unwrap();

    let mut sell_order = Order {
        order_id: 0,
        order_type: OrderType::Limit,
        order_status: OrderStatus::PendingNew,
        order_side: OrderSide::Sell,
        user_id: 0,
        price: 10000,
        quantity: 300,
    };

    let price_index = sell_order.price as usize;

    let add_sell_order_result = order_book.add_order(sell_order.clone());

    sell_order.order_status = OrderStatus::Active;

    let sell_order_index = order_book.index_mappings[&sell_order.order_id];

    assert!(add_sell_order_result.is_ok());
    assert_eq!(order_book.asks[price_index].len(), 1);
    assert_eq!(order_book.asks[price_index].get(0), sell_order_index);

    let buy_order = Order {
        order_id: 1,
        order_type: OrderType::Market,
        order_status: OrderStatus::PendingNew,
        order_side: OrderSide::Buy,
        user_id: 1,
        price: 10000,
        quantity: 300,
    };

    let add_buy_order_result = order_book.add_order(buy_order.clone());

    assert!(add_buy_order_result.is_ok());
    assert!(order_book.asks[price_index].is_empty());
}

#[test]
fn test_add_order_correctly_executes_order_fill_on_limit_order_and_adds_remaining_to_order_book() {
    let config = OrderBookConfig { min_price: 0, max_price: 10000, tick_size: 1, queue_size: 100 };
    let mut order_book = FixedPriceOrderBook::new(config).unwrap();

    let mut sell_order = Order {
        order_id: 0,
        order_type: OrderType::Limit,
        order_status: OrderStatus::PendingNew,
        order_side: OrderSide::Sell,
        user_id: 0,
        price: 10000,
        quantity: 300,
    };

    let price_index = sell_order.price as usize;

    let add_sell_order_result = order_book.add_order(sell_order.clone());

    sell_order.order_status = OrderStatus::Active;

    let sell_order_index = order_book.index_mappings[&sell_order.order_id];

    assert!(add_sell_order_result.is_ok());
    assert_eq!(order_book.asks[price_index].len(), 1);
    assert_eq!(order_book.asks[price_index].get(0), sell_order_index);

    let mut buy_order = Order {
        order_id: 1,
        order_type: OrderType::Limit,
        order_status: OrderStatus::PendingNew,
        order_side: OrderSide::Buy,
        user_id: 1,
        price: 10000,
        quantity: 500,
    };

    let add_buy_order_result = order_book.add_order(buy_order.clone());

    buy_order.order_status = OrderStatus::PartiallyFilled;
    buy_order.quantity = 200;

    let buy_order_index = order_book.index_mappings[&buy_order.order_id];

    assert!(add_buy_order_result.is_ok());
    assert!(order_book.asks[price_index].is_empty());
    assert_eq!(order_book.bids[price_index].len(), 1);
    assert_eq!(order_book.bids[price_index].get(0), buy_order_index);
}

#[test]
fn test_add_order_errors_price_out_of_range() {
    let config = OrderBookConfig { min_price: 0, max_price: 10000, tick_size: 1, queue_size: 100 };
    let mut order_book = FixedPriceOrderBook::new(config).unwrap();

    let order = Order {
        order_id: 0,
        order_type: OrderType::Limit,
        order_status: OrderStatus::PendingNew,
        order_side: OrderSide::Sell,
        user_id: 0,
        price: 100000,
        quantity: 300,
    };

    let add_order_result = order_book.add_order(order.clone());

    assert!(add_order_result.is_err());
    assert_eq!(add_order_result.err().unwrap(), OrderBookError::PriceOutOfRange);
}

#[test]
fn test_cancel_order_correctly_cancels_resting_limit_order() {
    let config = OrderBookConfig { min_price: 0, max_price: 10000, tick_size: 1, queue_size: 100 };
    let mut order_book = FixedPriceOrderBook::new(config).unwrap();

    let mut order = Order {
        order_id: 0,
        order_type: OrderType::Limit,
        order_status: OrderStatus::PendingNew,
        order_side: OrderSide::Sell,
        user_id: 0,
        price: 10000,
        quantity: 300,
    };

    let price_index = order.price as usize;

    let add_order_result = order_book.add_order(order.clone());

    order.order_status = OrderStatus::Active;

    let order_index = order_book.index_mappings[&order.order_id];

    assert!(add_order_result.is_ok());
    assert_eq!(order_book.asks[price_index].len(), 1);
    assert_eq!(order_book.asks[price_index].get(0), order_index);

    let cancel_order_result = order_book.cancel_order(order.order_id);

    assert!(cancel_order_result.is_ok());
    assert!(order_book.asks[price_index].is_empty());
}

#[test]
fn test_cancel_order_errors_order_not_found() {
    let config = OrderBookConfig { min_price: 0, max_price: 10000, tick_size: 1, queue_size: 100 };
    let mut order_book = FixedPriceOrderBook::new(config).unwrap();

    let mut order = Order {
        order_id: 0,
        order_type: OrderType::Limit,
        order_status: OrderStatus::PendingNew,
        order_side: OrderSide::Sell,
        user_id: 0,
        price: 10000,
        quantity: 300,
    };

    let price_index = order.price as usize;

    let add_order_result = order_book.add_order(order.clone());

    order.order_status = OrderStatus::Active;

    let order_index = order_book.index_mappings[&order.order_id];

    assert!(add_order_result.is_ok());
    assert_eq!(order_book.asks[price_index].len(), 1);
    assert_eq!(order_book.asks[price_index].get(0), order_index);

    let cancel_order_result = order_book.cancel_order(99);

    assert!(cancel_order_result.is_err());
    assert_eq!(cancel_order_result.err().unwrap(), OrderBookError::OrderNotFound);
    assert_eq!(order_book.asks[price_index].len(), 1);
    assert_eq!(order_book.asks[price_index].get(0), order_index);
}

#[test]
fn test_cancel_order_errors_price_out_of_range() {
    let config = OrderBookConfig { min_price: 0, max_price: 10000, tick_size: 1, queue_size: 100 };
    let mut order_book = FixedPriceOrderBook::new(config).unwrap();

    let order = Order {
        order_id: 0,
        order_type: OrderType::Limit,
        order_status: OrderStatus::Active,
        order_side: OrderSide::Sell,
        user_id: 0,
        price: 10100,
        quantity: 300,
    };

    let price_index = order.price as usize;

    let order_index = order_book.order_ledger.insert(order.clone());
    for _ in 0..10000 {
        order_book.asks.push(RingBuffer::new(100));
    }
    order_book.asks[price_index].push_back(order_index).unwrap();

    let cancel_order_result = order_book.cancel_order(99);

    assert!(cancel_order_result.is_err());
    assert_eq!(cancel_order_result.err().unwrap(), OrderBookError::OrderNotFound);
    assert_eq!(order_book.asks[price_index].len(), 1);
    assert_eq!(order_book.asks[price_index].get(0), order_index);
}

#[test]
fn test_modify_order_correctly_modifies_resting_limit_order() {
    let config = OrderBookConfig { min_price: 0, max_price: 10000, tick_size: 1, queue_size: 100 };
    let mut order_book = FixedPriceOrderBook::new(config).unwrap();

    let mut order = Order {
        order_id: 0,
        order_type: OrderType::Limit,
        order_status: OrderStatus::Active,
        order_side: OrderSide::Sell,
        user_id: 0,
        price: 10000,
        quantity: 300,
    };

    let price_index = order.price as usize;

    let add_order_result = order_book.add_order(order.clone());

    order.order_status = OrderStatus::Active;

    let order_index = order_book.index_mappings[&order.order_id];

    assert!(add_order_result.is_ok());
    assert_eq!(order_book.asks[price_index].len(), 1);
    assert_eq!(order_book.asks[price_index].get(0), order_index);

    let mut modified_order = order.clone();
    modified_order.quantity = 500;

    let modify_order_result = order_book.modify_order(order.order_id, modified_order.clone());

    let buy_order_index = order_book.index_mappings[&order.order_id];

    assert!(modify_order_result.is_ok());
    assert_eq!(order_book.asks[price_index].len(), 1);
    assert_eq!(order_book.order_ledger[buy_order_index], modified_order);
}

#[test]
fn test_execute_fill_by_order_type_correctly_fills_limit_order_no_remaining_quantity() {
    let config = OrderBookConfig { min_price: 0, max_price: 10000, tick_size: 1, queue_size: 100 };
    let mut order_book = FixedPriceOrderBook::new(config).unwrap();

    let mut sell_order = Order {
        order_id: 0,
        order_type: OrderType::Limit,
        order_status: OrderStatus::PendingNew,
        order_side: OrderSide::Sell,
        user_id: 0,
        price: 10000,
        quantity: 300,
    };

    let buy_order = Order {
        order_id: 1,
        order_type: OrderType::Limit,
        order_status: OrderStatus::PendingNew,
        order_side: OrderSide::Buy,
        user_id: 1,
        price: 10000,
        quantity: 300,
    };

    let price_index = sell_order.price as usize;

    let add_order_result = order_book.add_order(sell_order.clone());

    sell_order.order_status = OrderStatus::Active;

    let sell_order_index = order_book.index_mappings[&sell_order.order_id];

    assert!(add_order_result.is_ok());
    assert_eq!(order_book.asks[price_index].len(), 1);
    assert_eq!(order_book.asks[price_index].get(0), sell_order_index);

    let execute_fill_by_order_type_result =
        order_book.execute_fill_by_order_type(buy_order.clone());

    assert!(execute_fill_by_order_type_result.is_ok());
    assert!(order_book.asks[price_index].is_empty());
    assert!(order_book.bids[price_index].is_empty());
    assert_eq!(order_book.trade_history.len(), 1);
    assert_eq!(order_book.trade_history[0].aggressive_order_id, buy_order.order_id);
    assert_eq!(order_book.trade_history[0].resting_order_id, sell_order.order_id);
    assert_eq!(order_book.trade_history[0].quantity, 300);
}

#[test]
fn test_execute_fill_by_order_type_correctly_fills_limit_order_with_remaining_quantity() {
    let config = OrderBookConfig { min_price: 0, max_price: 10000, tick_size: 1, queue_size: 100 };
    let mut order_book = FixedPriceOrderBook::new(config).unwrap();

    let mut sell_order = Order {
        order_id: 0,
        order_type: OrderType::Limit,
        order_status: OrderStatus::PendingNew,
        order_side: OrderSide::Sell,
        user_id: 0,
        price: 10000,
        quantity: 300,
    };

    let buy_order = Order {
        order_id: 1,
        order_type: OrderType::Limit,
        order_status: OrderStatus::PendingNew,
        order_side: OrderSide::Buy,
        user_id: 1,
        price: 10000,
        quantity: 600,
    };

    let price_index = sell_order.price as usize;

    let add_order_result = order_book.add_order(sell_order.clone());

    sell_order.order_status = OrderStatus::Active;

    let sell_order_index = order_book.index_mappings[&sell_order.order_id];

    assert!(add_order_result.is_ok());
    assert_eq!(order_book.asks[price_index].len(), 1);
    assert_eq!(order_book.asks[price_index].get(0), sell_order_index);

    let execute_fill_by_order_type_result =
        order_book.execute_fill_by_order_type(buy_order.clone());

    let buy_order_index = order_book.index_mappings[&buy_order.order_id];

    assert!(execute_fill_by_order_type_result.is_ok());
    assert_eq!(order_book.bids[price_index].len(), 1);
    assert_eq!(order_book.order_ledger[buy_order_index].quantity, 300);
    assert!(order_book.asks[price_index].is_empty());
    assert_eq!(order_book.trade_history.len(), 1);
    assert_eq!(order_book.trade_history[0].aggressive_order_id, buy_order.order_id);
    assert_eq!(order_book.trade_history[0].resting_order_id, sell_order.order_id);
    assert_eq!(order_book.trade_history[0].quantity, 300);
}

#[test]
fn test_execute_fill_by_order_type_correctly_fills_market_order() {
    let config = OrderBookConfig { min_price: 0, max_price: 10000, tick_size: 1, queue_size: 100 };
    let mut order_book = FixedPriceOrderBook::new(config).unwrap();

    let mut sell_order = Order {
        order_id: 0,
        order_type: OrderType::Limit,
        order_status: OrderStatus::PendingNew,
        order_side: OrderSide::Sell,
        user_id: 0,
        price: 10000,
        quantity: 600,
    };

    let buy_order = Order {
        order_id: 1,
        order_type: OrderType::Market,
        order_status: OrderStatus::PendingNew,
        order_side: OrderSide::Buy,
        user_id: 1,
        price: 10000,
        quantity: 300,
    };

    let price_index = sell_order.price as usize;

    let add_order_result = order_book.add_order(sell_order.clone());

    sell_order.order_status = OrderStatus::Active;

    let sell_order_index = order_book.index_mappings[&sell_order.order_id];

    assert!(add_order_result.is_ok());
    assert_eq!(order_book.asks[price_index].len(), 1);
    assert_eq!(order_book.asks[price_index].get(0), sell_order_index);

    let execute_fill_by_order_type_result =
        order_book.execute_fill_by_order_type(buy_order.clone());

    assert!(execute_fill_by_order_type_result.is_ok());
    assert_eq!(order_book.asks[price_index].len(), 1);
    assert_eq!(order_book.order_ledger[sell_order_index].quantity, 300);
    assert!(order_book.bids[price_index].is_empty());
    assert_eq!(order_book.trade_history.len(), 1);
    assert_eq!(order_book.trade_history[0].aggressive_order_id, buy_order.order_id);
    assert_eq!(order_book.trade_history[0].resting_order_id, sell_order.order_id);
    assert_eq!(order_book.trade_history[0].quantity, 300);
}

#[test]
fn test_execute_fill_by_order_type_fills_part_of_market_order_and_errors_insufficient_liquidity() {
    let config = OrderBookConfig { min_price: 0, max_price: 10000, tick_size: 1, queue_size: 100 };
    let mut order_book = FixedPriceOrderBook::new(config).unwrap();

    let mut sell_order = Order {
        order_id: 0,
        order_type: OrderType::Limit,
        order_status: OrderStatus::PendingNew,
        order_side: OrderSide::Sell,
        user_id: 0,
        price: 10000,
        quantity: 300,
    };

    let buy_order = Order {
        order_id: 1,
        order_type: OrderType::Market,
        order_status: OrderStatus::PendingNew,
        order_side: OrderSide::Buy,
        user_id: 1,
        price: 10000,
        quantity: 600,
    };

    let price_index = sell_order.price as usize;

    let add_order_result = order_book.add_order(sell_order.clone());

    sell_order.order_status = OrderStatus::Active;

    let sell_order_index = order_book.index_mappings[&sell_order.order_id];

    assert!(add_order_result.is_ok());
    assert_eq!(order_book.asks[price_index].len(), 1);
    assert_eq!(order_book.asks[price_index].get(0), sell_order_index);

    let execute_fill_by_order_type_result =
        order_book.execute_fill_by_order_type(buy_order.clone());

    assert!(execute_fill_by_order_type_result.is_err());
    assert_eq!(
        execute_fill_by_order_type_result.err().unwrap(),
        OrderBookError::InsufficientLiquidity
    );
    assert!(order_book.asks[price_index].is_empty());
    assert!(order_book.bids[price_index].is_empty());
    assert_eq!(order_book.trade_history.len(), 1);
    assert_eq!(order_book.trade_history[0].aggressive_order_id, buy_order.order_id);
    assert_eq!(order_book.trade_history[0].resting_order_id, sell_order.order_id);
    assert_eq!(order_book.trade_history[0].quantity, 300);
}

#[test]
fn test_execute_fill_by_order_type_correctly_fills_immediate_or_cancel_order() {
    let config = OrderBookConfig { min_price: 0, max_price: 10000, tick_size: 1, queue_size: 100 };
    let mut order_book = FixedPriceOrderBook::new(config).unwrap();

    let mut sell_order = Order {
        order_id: 0,
        order_type: OrderType::Limit,
        order_status: OrderStatus::PendingNew,
        order_side: OrderSide::Sell,
        user_id: 0,
        price: 10000,
        quantity: 600,
    };

    let buy_order = Order {
        order_id: 1,
        order_type: OrderType::ImmediateOrCancel,
        order_status: OrderStatus::PendingNew,
        order_side: OrderSide::Buy,
        user_id: 1,
        price: 10000,
        quantity: 300,
    };

    let price_index = sell_order.price as usize;

    let add_order_result = order_book.add_order(sell_order.clone());

    sell_order.order_status = OrderStatus::Active;

    let sell_order_index = order_book.index_mappings[&sell_order.order_id];

    assert!(add_order_result.is_ok());
    assert_eq!(order_book.asks[price_index].len(), 1);
    assert_eq!(order_book.asks[price_index].get(0), sell_order_index);

    let execute_fill_by_order_type_result =
        order_book.execute_fill_by_order_type(buy_order.clone());

    assert!(execute_fill_by_order_type_result.is_ok());
    assert_eq!(order_book.asks[price_index].len(), 1);
    assert_eq!(order_book.order_ledger[sell_order_index].quantity, 300);
    assert!(order_book.bids[price_index].is_empty());
    assert_eq!(order_book.trade_history.len(), 1);
    assert_eq!(order_book.trade_history[0].aggressive_order_id, buy_order.order_id);
    assert_eq!(order_book.trade_history[0].resting_order_id, sell_order.order_id);
    assert_eq!(order_book.trade_history[0].quantity, 300);
}

#[test]
fn test_execute_fill_by_order_type_correctly_cancels_immediate_or_cancel_order_if_no_resting_order_exists(
) {
    let config = OrderBookConfig { min_price: 0, max_price: 10000, tick_size: 1, queue_size: 100 };
    let mut order_book = FixedPriceOrderBook::new(config).unwrap();

    let buy_order = Order {
        order_id: 1,
        order_type: OrderType::ImmediateOrCancel,
        order_status: OrderStatus::PendingNew,
        order_side: OrderSide::Buy,
        user_id: 1,
        price: 10000,
        quantity: 300,
    };

    let price_index = buy_order.price as usize;

    let execute_fill_by_order_type_result =
        order_book.execute_fill_by_order_type(buy_order.clone());

    assert!(execute_fill_by_order_type_result.is_ok());
    assert!(order_book.asks[price_index].is_empty());
    assert!(order_book.bids[price_index].is_empty());
    assert!(order_book.trade_history.is_empty());
}

#[test]
fn test_execute_fill_by_order_type_correctly_fills_fill_or_kill_order() {
    let config = OrderBookConfig { min_price: 0, max_price: 10000, tick_size: 1, queue_size: 100 };
    let mut order_book = FixedPriceOrderBook::new(config).unwrap();

    let mut sell_order = Order {
        order_id: 0,
        order_type: OrderType::Limit,
        order_status: OrderStatus::PendingNew,
        order_side: OrderSide::Sell,
        user_id: 0,
        price: 10000,
        quantity: 600,
    };

    let buy_order = Order {
        order_id: 1,
        order_type: OrderType::FillOrKill,
        order_status: OrderStatus::PendingNew,
        order_side: OrderSide::Buy,
        user_id: 1,
        price: 10000,
        quantity: 300,
    };

    let price_index = sell_order.price as usize;

    let add_order_result = order_book.add_order(sell_order.clone());

    sell_order.order_status = OrderStatus::Active;

    let sell_order_index = order_book.index_mappings[&sell_order.order_id];

    assert!(add_order_result.is_ok());
    assert_eq!(order_book.asks[price_index].len(), 1);
    assert_eq!(order_book.asks[price_index].get(0), sell_order_index);

    let execute_fill_by_order_type_result =
        order_book.execute_fill_by_order_type(buy_order.clone());

    assert!(execute_fill_by_order_type_result.is_ok());
    assert_eq!(order_book.asks[price_index].len(), 1);
    assert_eq!(order_book.order_ledger[sell_order_index].quantity, 300);
    assert!(order_book.bids[price_index].is_empty());
    assert_eq!(order_book.trade_history.len(), 1);
    assert_eq!(order_book.trade_history[0].aggressive_order_id, buy_order.order_id);
    assert_eq!(order_book.trade_history[0].resting_order_id, sell_order.order_id);
    assert_eq!(order_book.trade_history[0].quantity, 300);
}

#[test]
fn test_execute_fill_by_order_type_errors_cannot_fill_completely() {
    let config = OrderBookConfig { min_price: 0, max_price: 10000, tick_size: 1, queue_size: 100 };
    let mut order_book = FixedPriceOrderBook::new(config).unwrap();

    let mut sell_order = Order {
        order_id: 0,
        order_type: OrderType::Limit,
        order_status: OrderStatus::PendingNew,
        order_side: OrderSide::Sell,
        user_id: 0,
        price: 10000,
        quantity: 300,
    };

    let buy_order = Order {
        order_id: 1,
        order_type: OrderType::FillOrKill,
        order_status: OrderStatus::PendingNew,
        order_side: OrderSide::Buy,
        user_id: 1,
        price: 10000,
        quantity: 600,
    };

    let price_index = sell_order.price as usize;

    let add_order_result = order_book.add_order(sell_order.clone());

    sell_order.order_status = OrderStatus::Active;

    let sell_order_index = order_book.index_mappings[&sell_order.order_id];

    assert!(add_order_result.is_ok());
    assert_eq!(order_book.asks[price_index].len(), 1);
    assert_eq!(order_book.asks[price_index].get(0), sell_order_index);

    let execute_fill_by_order_type_result =
        order_book.execute_fill_by_order_type(buy_order.clone());

    assert!(execute_fill_by_order_type_result.is_err());
    assert_eq!(
        execute_fill_by_order_type_result.err().unwrap(),
        OrderBookError::CannotFillCompletely
    );
    assert_eq!(order_book.asks[price_index].len(), 1);
    assert_eq!(order_book.order_ledger[sell_order_index].quantity, 300);
    assert!(order_book.bids[price_index].is_empty());
    assert!(order_book.trade_history.is_empty());
}

#[test]
fn test_fill_limit_order_correctly_fills_buy_limit_order() {}

#[test]
fn test_fill_limit_order_correctly_fills_sell_limit_order() {}

#[test]
fn test_fill_market_order_correctly_fills_buy_market_order() {}

#[test]
fn test_fill_market_order_correctly_fills_sell_market_order() {}

#[test]
fn test_fill_immediate_or_cancel_order_correctly_fills_immediate_or_cancel_order() {}

#[test]
fn test_fill_fill_or_kill_order_correctly_fills_fill_or_kill_order() {}

#[test]
fn test_fill_fill_or_kill_order_errors_cannot_fill_completely() {}

#[test]
fn test_match_order_against_book_correctly_matches_and_fills_buy_order() {}

#[test]
fn test_match_order_against_book_correctly_matches_and_fills_buy_order_excess_quantity() {}

#[test]
fn test_match_order_against_book_correctly_matches_and_fills_sell_order() {}

#[test]
fn test_match_order_against_book_correctly_matches_and_fills_sell_order_excess_quantity() {}

#[test]
fn test_rest_remaining_limit_order_correctly_rests_buy_limit_order() {}

#[test]
fn test_rest_remaining_limit_order_correctly_rests_sell_limit_order() {}

#[test]
fn test_rest_remaining_limit_order_errors_non_limit_order_rest_attempt() {}

#[test]
fn test_can_fill_completely_correctly_returns_true_for_buy_order_that_can_be_filled_completely() {}

#[test]
fn test_can_fill_completely_correctly_returns_false_for_buy_order_with_remaining_quantity() {}

#[test]
fn test_can_fill_completely_correctly_returns_true_for_sell_order_that_can_be_filled_completely() {
}

#[test]
fn test_can_fill_completely_correctly_returns_false_for_sell_order_with_remaining_quantity() {}

#[test]
fn benchmark() {}
