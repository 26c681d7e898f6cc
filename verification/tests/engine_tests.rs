use exchange::dec::Dec;
use exchange::engine::Engine;
use exchange::error::EngineError;
use exchange::orderbook::OrderBook;
use exchange::types::{
    Asset, AssetPair, CancelAllOrders, CancelOrder, CreateOrder, GetDepth, GetOpenOrder,
    GetOpenOrders, Order, OrderSide, OrderStatus, OrderType,
};

fn d(n: i64) -> Dec {
    Dec::from_int(n)
}

fn setup_engine() -> Engine {
    let mut engine = Engine::new();
    engine.orderbooks.push(OrderBook::new(
        AssetPair {
            base: Asset::Sol,
            quote: Asset::Usdc,
        },
        0,
    ));
    engine
}

fn create_order(market: &str, side: OrderSide, price: Dec, qty: Dec, user: &str) -> CreateOrder {
    CreateOrder {
        market: market.to_string(),
        price,
        quantity: qty,
        side,
        user_id: user.to_string(),
        pubsub_id: None,
    }
}

fn limit(side: OrderSide, price: Dec, qty: Dec, user: &str, id: &str) -> Order {
    Order {
        price,
        quantity: qty,
        filled_quantity: d(0),
        order_id: id.to_string(),
        user_id: user.to_string(),
        side,
        order_type: OrderType::Limit,
        order_status: OrderStatus::Pending,
        timestamp: 0,
    }
}

#[test]
fn check_and_lock_funds_buy_locks_quote() {
    let mut engine = setup_engine();
    engine.init_user_balance("alice");

    let order = create_order("SOL_USDC", OrderSide::Buy, d(100), d(10), "alice");
    engine.check_and_lock_funds(&order).unwrap();

    assert_eq!(engine.get_available_balance("alice", &Asset::Usdc).unwrap(), d(999000));
    assert_eq!(engine.get_locked_balance("alice", &Asset::Usdc).unwrap(), d(1000));
}

#[test]
fn check_and_lock_funds_sell_locks_base() {
    let mut engine = setup_engine();
    engine.init_user_balance("alice");

    let order = create_order("SOL_USDC", OrderSide::Sell, d(100), d(5), "alice");
    engine.check_and_lock_funds(&order).unwrap();

    assert_eq!(engine.get_available_balance("alice", &Asset::Sol).unwrap(), d(9995));
    assert_eq!(engine.get_locked_balance("alice", &Asset::Sol).unwrap(), d(5));
}

#[test]
fn insufficient_funds_rejected() {
    let mut engine = setup_engine();
    engine.init_user_balance("alice");

    let order = create_order("SOL_USDC", OrderSide::Buy, d(100), d(20000), "alice");
    let result = engine.check_and_lock_funds(&order);

    assert!(result.is_err());
}

#[test]
fn unknown_user_rejected() {
    let mut engine = setup_engine();

    let order = create_order("SOL_USDC", OrderSide::Buy, d(100), d(1), "nobody");
    let result = engine.check_and_lock_funds(&order);

    assert!(result.is_err());
}

#[test]
fn parse_market_assets_valid() {
    let (base, quote) = Engine::parse_market_assets("SOL_USDC").unwrap();
    assert_eq!(base, Asset::Sol);
    assert_eq!(quote, Asset::Usdc);
}

#[test]
fn parse_market_assets_invalid() {
    assert!(Engine::parse_market_assets("INVALID").is_err());
    assert!(Engine::parse_market_assets("SOL_UNKNOWN").is_err());
    assert!(Engine::parse_market_assets("").is_err());
}

#[test]
fn cancel_order_unlocks_funds() {
    let mut engine = setup_engine();
    engine.init_user_balance("alice");

    let lock_order = create_order("SOL_USDC", OrderSide::Buy, d(100), d(10), "alice");
    engine.check_and_lock_funds(&lock_order).unwrap();

    let order_id = {
        let ob = &mut engine.orderbooks[0];
        ob.process_order(limit(OrderSide::Buy, d(100), d(10), "alice", "test-order"));
        "test-order".to_string()
    };

    let cancel = CancelOrder {
        order_id,
        user_id: "alice".to_string(),
        price: d(100),
        side: OrderSide::Buy,
        market: "SOL_USDC".to_string(),
        pubsub_id: None,
    };
    engine.cancel_order(cancel).unwrap();

    assert_eq!(engine.get_available_balance("alice", &Asset::Usdc).unwrap(), d(1000000));
    assert_eq!(engine.get_locked_balance("alice", &Asset::Usdc).unwrap(), d(0));
}

#[test]
fn cancel_all_orders_unlocks_all_funds() {
    let mut engine = setup_engine();
    engine.init_user_balance("alice");

    let buy_order = create_order("SOL_USDC", OrderSide::Buy, d(100), d(5), "alice");
    engine.check_and_lock_funds(&buy_order).unwrap();
    engine.orderbooks[0].process_order(limit(OrderSide::Buy, d(100), d(5), "alice", "buy1"));

    let sell_order = create_order("SOL_USDC", OrderSide::Sell, d(200), d(3), "alice");
    engine.check_and_lock_funds(&sell_order).unwrap();
    engine.orderbooks[0].process_order(limit(OrderSide::Sell, d(200), d(3), "alice", "sell1"));

    let cancel_all = CancelAllOrders {
        user_id: "alice".to_string(),
        market: "SOL_USDC".to_string(),
        pubsub_id: None,
    };
    engine.cancel_all_orders(cancel_all).unwrap();

    assert_eq!(engine.get_available_balance("alice", &Asset::Usdc).unwrap(), d(1000000));
    assert_eq!(engine.get_locked_balance("alice", &Asset::Usdc).unwrap(), d(0));
    assert_eq!(engine.get_available_balance("alice", &Asset::Sol).unwrap(), d(10000));
    assert_eq!(engine.get_locked_balance("alice", &Asset::Sol).unwrap(), d(0));
}

#[test]
fn balance_updates_after_buy_fill() {
    let mut engine = setup_engine();
    engine.init_user_balance("buyer");
    engine.init_user_balance("seller");

    let sell_lock = create_order("SOL_USDC", OrderSide::Sell, d(100), d(5), "seller");
    engine.check_and_lock_funds(&sell_lock).unwrap();
    engine.orderbooks[0].process_order(limit(OrderSide::Sell, d(100), d(5), "seller", "s1"));

    let buy_lock = create_order("SOL_USDC", OrderSide::Buy, d(100), d(5), "buyer");
    engine.check_and_lock_funds(&buy_lock).unwrap();

    let order = limit(OrderSide::Buy, d(100), d(5), "buyer", "b1");
    let result = engine.orderbooks[0].process_order(order.clone());

    engine.update_user_balance(Asset::Sol, Asset::Usdc, &order, &result).unwrap();

    assert_eq!(engine.get_available_balance("buyer", &Asset::Sol).unwrap(), d(10005));
    assert_eq!(engine.get_locked_balance("buyer", &Asset::Usdc).unwrap(), d(0));

    assert_eq!(engine.get_available_balance("seller", &Asset::Usdc).unwrap(), d(1000500));
    assert_eq!(engine.get_locked_balance("seller", &Asset::Sol).unwrap(), d(0));
}

#[test]
fn get_depth_returns_correct_data() {
    let mut engine = setup_engine();

    engine.orderbooks[0].process_order(limit(OrderSide::Buy, d(100), d(10), "user1", "b1"));

    let (bids, asks) = engine.get_depth(GetDepth {
        symbol: "SOL_USDC".to_string(),
        pubsub_id: None,
    });

    assert_eq!(bids.len(), 1);
    assert_eq!(bids[0], (d(100), d(10)));
    assert!(asks.is_empty());
}

#[test]
fn get_depth_nonexistent_market_returns_empty() {
    let engine = setup_engine();
    let (bids, asks) = engine.get_depth(GetDepth {
        symbol: "FAKE_MKT".to_string(),
        pubsub_id: None,
    });
    assert!(bids.is_empty());
    assert!(asks.is_empty());
}

#[test]
fn parse_market_assets_errors_name_the_problem() {
    assert_eq!(
        Engine::parse_market_assets("INVALID").unwrap_err(),
        EngineError::InvalidMarketFormat("INVALID".to_string())
    );
    assert_eq!(
        Engine::parse_market_assets("SOL_UNKNOWN").unwrap_err(),
        EngineError::UnsupportedAsset("UNKNOWN".to_string())
    );
    assert_eq!(
        Engine::parse_market_assets("DOGE_USDC").unwrap_err(),
        EngineError::UnsupportedAsset("DOGE".to_string())
    );
    assert_eq!(
        Engine::parse_market_assets("A_B_C").unwrap_err(),
        EngineError::InvalidMarketFormat("A_B_C".to_string())
    );
}

#[test]
fn lock_errors_by_kind() {
    let mut engine = setup_engine();
    engine.init_user_balance("alice");
    let r = engine.check_and_lock_funds(&create_order("BTC_USDT", OrderSide::Buy, d(1), d(1), "alice"));
    assert_eq!(r.unwrap_err(), EngineError::NoBalanceForAsset("USDT".to_string()));
    let r = engine.check_and_lock_funds(&create_order("SOL_USDC", OrderSide::Buy, d(1), d(1), "bob"));
    assert_eq!(r.unwrap_err(), EngineError::UserNotFound("bob".to_string()));
    let r = engine.check_and_lock_funds(&create_order("SOL_USDC", OrderSide::Sell, d(1), d(10001), "alice"));
    assert_eq!(r.unwrap_err(), EngineError::InsufficientFunds);
    // nothing was locked by the refused requests
    assert_eq!(engine.get_available_balance("alice", &Asset::Sol).unwrap(), d(10000));
    assert_eq!(engine.get_locked_balance("alice", &Asset::Usdc).unwrap(), d(0));
}

#[test]
fn create_order_matches_and_settles() {
    let mut engine = setup_engine();
    engine.init_user_balance("buyer");
    engine.init_user_balance("seller");

    let sell = create_order("SOL_USDC", OrderSide::Sell, d(100), d(5), "seller");
    let placed = engine.create_order_with(sell, "s1".to_string(), 1).unwrap();
    assert_eq!(placed.order.order_id, "s1");
    assert!(placed.result.fills.is_empty());

    let buy = create_order("SOL_USDC", OrderSide::Buy, d(100), d(3), "buyer");
    let placed = engine.create_order_with(buy, "b1".to_string(), 2).unwrap();
    assert_eq!(placed.result.executed_quantity, d(3));
    assert_eq!(placed.result.fills[0].other_user_id, "seller");

    assert_eq!(engine.get_available_balance("buyer", &Asset::Sol).unwrap(), d(10003));
    assert_eq!(engine.get_available_balance("buyer", &Asset::Usdc).unwrap(), d(999700));
    assert_eq!(engine.get_locked_balance("buyer", &Asset::Usdc).unwrap(), d(0));
    assert_eq!(engine.get_available_balance("seller", &Asset::Usdc).unwrap(), d(1000300));
    assert_eq!(engine.get_locked_balance("seller", &Asset::Sol).unwrap(), d(2));
    assert_eq!(engine.get_available_balance("seller", &Asset::Sol).unwrap(), d(9995));

    let open = engine.get_open_orders(GetOpenOrders {
        user_id: "seller".to_string(),
        market: "SOL_USDC".to_string(),
        pubsub_id: None,
    });
    assert_eq!(open.len(), 1);
    assert_eq!(open[0].filled_quantity, d(3));
}

#[test]
fn create_order_rejects_bad_amounts() {
    let mut engine = setup_engine();
    engine.init_user_balance("alice");
    let r = engine.create_order_with(create_order("SOL_USDC", OrderSide::Buy, d(0), d(1), "alice"), "x".to_string(), 0);
    assert_eq!(r.unwrap_err(), EngineError::InvalidPrice);
    let r = engine.create_order_with(create_order("SOL_USDC", OrderSide::Buy, d(1), d(-1), "alice"), "x".to_string(), 0);
    assert_eq!(r.unwrap_err(), EngineError::InvalidQuantity);
}

#[test]
fn create_order_without_book_keeps_funds_locked() {
    let mut engine = setup_engine();
    engine.init_user_balance("alice");
    let r = engine.create_order_with(create_order("SOL_USDT", OrderSide::Sell, d(10), d(2), "alice"), "x".to_string(), 0);
    assert_eq!(r.unwrap_err(), EngineError::OrderBookNotFound("SOL_USDT".to_string()));
    assert_eq!(engine.get_locked_balance("alice", &Asset::Sol).unwrap(), d(2));
}

#[test]
fn create_order_generates_an_id() {
    let mut engine = setup_engine();
    engine.init_user_balance("alice");
    let placed = engine.create_order(create_order("SOL_USDC", OrderSide::Buy, d(10), d(1), "alice")).unwrap();
    let id = placed.order.order_id.clone();
    assert_eq!(id.len(), 36);
    assert_eq!(id.chars().nth(8), Some('-'));
    let found = engine.get_open_order(GetOpenOrder {
        user_id: "alice".to_string(),
        order_id: id,
        market: "SOL_USDC".to_string(),
        pubsub_id: None,
    });
    assert!(found.is_ok());
}

#[test]
fn cancel_unknown_order_reports_not_found() {
    let mut engine = setup_engine();
    engine.init_user_balance("alice");
    let cancel = CancelOrder {
        order_id: "none".to_string(),
        user_id: "alice".to_string(),
        price: d(100),
        side: OrderSide::Buy,
        market: "SOL_USDC".to_string(),
        pubsub_id: None,
    };
    assert_eq!(engine.cancel_order(cancel).unwrap_err(), EngineError::OrderNotFound);
}

#[test]
fn cancel_all_message_names_the_user() {
    let mut engine = setup_engine();
    engine.init_user_balance("alice");
    let m = engine
        .cancel_all_orders(CancelAllOrders {
            user_id: "alice".to_string(),
            market: "SOL_USDC".to_string(),
            pubsub_id: None,
        })
        .unwrap();
    assert_eq!(m, "All orders for user alice cancelled successfully");
}

#[test]
fn error_messages() {
    assert_eq!(EngineError::InsufficientFunds.to_string(), "insufficient funds");
    assert_eq!(EngineError::UserNotFound("bob".to_string()).to_string(), "user not found: bob");
    assert_eq!(EngineError::OrderBookNotFound("X_Y".to_string()).to_string(), "no orderbook for market: X_Y");
    assert_eq!(EngineError::InvalidPrice.to_string(), "price must be positive");
}

#[test]
fn init_user_balance_replaces_existing() {
    let mut engine = setup_engine();
    engine.init_user_balance("alice");
    engine.check_and_lock_funds(&create_order("SOL_USDC", OrderSide::Sell, d(1), d(5), "alice")).unwrap();
    engine.init_user_balance("alice");
    assert_eq!(engine.get_available_balance("alice", &Asset::Sol).unwrap(), d(10000));
    assert_eq!(engine.get_locked_balance("alice", &Asset::Sol).unwrap(), d(0));
    assert!(engine.get_available_balance("alice", &Asset::Btc).is_none());
}

#[test]
fn tiny_price_locks_exactly() {
    let mut engine = setup_engine();
    engine.init_user_balance("alice");
    // price 0.00000000000000000001 (20 decimal places), quantity 5
    let price = Dec::new(1, 20);
    let order = create_order("SOL_USDC", OrderSide::Buy, price, d(5), "alice");
    engine.check_and_lock_funds(&order).unwrap();
    assert_eq!(engine.get_locked_balance("alice", &Asset::Usdc).unwrap(), Dec::new(5, 20));
    assert_eq!(
        engine.get_available_balance("alice", &Asset::Usdc).unwrap(),
        Dec::new(99999999999999999999999995, 20)
    );
}
