use exchange::dec::Dec;
use exchange::engine::Engine;
use exchange::orderbook::OrderBook;
use exchange::records::{persist_order_to_db, DatabaseRequests};
use exchange::restore::{OpenOrderRow, UserBalanceRow};
use exchange::service::{handle_order, handle_user, Reply};
use exchange::stream::publish_ws_trades;
use exchange::types::{
    Asset, AssetPair, CancelAllOrders, CancelOrder, CreateOrder, CreateUserInput, GetDepth,
    GetOpenOrder, GetOpenOrders, Order, OrderRequests, OrderSide, OrderStatus, OrderType,
    UserRequests,
};

fn d(n: i64) -> Dec {
    Dec::from_int(n)
}

fn engine_with_users(users: &[&str]) -> Engine {
    let mut engine = Engine::new();
    engine.orderbooks.push(OrderBook::new(
        AssetPair {
            base: Asset::Sol,
            quote: Asset::Usdc,
        },
        0,
    ));
    for u in users {
        engine.init_user_balance(u);
    }
    engine
}

fn create(side: OrderSide, price: i64, qty: i64, user: &str, pubsub: Option<u128>) -> OrderRequests {
    OrderRequests::CreateOrder(CreateOrder {
        market: "SOL_USDC".to_string(),
        price: d(price),
        quantity: d(qty),
        side,
        user_id: user.to_string(),
        pubsub_id: pubsub,
    })
}

#[test]
fn requests_without_channel_are_dropped() {
    let mut engine = engine_with_users(&["a"]);
    assert!(handle_order(&mut engine, create(OrderSide::Buy, 1, 1, "a", None)).is_none());
    assert_eq!(engine.get_locked_balance("a", &Asset::Usdc).unwrap(), d(0));
}

#[test]
fn create_then_match_reports_records_and_events() {
    let mut engine = engine_with_users(&["maker", "taker"]);
    let out = handle_order(&mut engine, create(OrderSide::Sell, 100, 5, "maker", Some(7))).unwrap();
    assert_eq!(out.pubsub_id, 7);
    let maker_id = match &out.reply {
        Reply::CreatedOrder { order_id } => order_id.clone(),
        other => panic!("unexpected {:?}", other),
    };
    assert_eq!(out.order_records.len(), 1);
    match &out.order_records[0] {
        DatabaseRequests::UpsertOrder(o) => {
            assert_eq!(o.order_status, "Pending");
            assert_eq!(o.market, "SOL_USDC");
            assert_eq!(o.side, "Sell");
        }
        other => panic!("unexpected {:?}", other),
    }
    assert!(out.trade_records.is_empty());
    assert_eq!(out.balance_records.len(), 2);

    let out = handle_order(&mut engine, create(OrderSide::Buy, 100, 2, "taker", Some(8))).unwrap();
    assert!(matches!(out.reply, Reply::CreatedOrder { .. }));
    // taker filled completely, maker partially
    assert_eq!(out.order_records.len(), 2);
    assert!(matches!(&out.order_records[0], DatabaseRequests::DeleteOrder { .. }));
    match &out.order_records[1] {
        DatabaseRequests::UpsertOrder(o) => {
            assert_eq!(o.order_id, maker_id);
            assert_eq!(o.filled_quantity, d(2));
            assert_eq!(o.order_status, "PartiallyFilled");
        }
        other => panic!("unexpected {:?}", other),
    }
    assert_eq!(out.trade_records.len(), 1);
    match &out.trade_records[0] {
        DatabaseRequests::InsertTrade(t) => {
            assert_eq!(t.trade_id, 1);
            assert_eq!(t.user_id, "taker");
            assert_eq!(t.other_user_id, "maker");
        }
        other => panic!("unexpected {:?}", other),
    }
    // taker and maker balances, two assets each
    assert_eq!(out.balance_records.len(), 4);
    assert_eq!(out.trades.len(), 1);
    assert_eq!(out.trades[0].stream, "trade.SOL_USDC");
    assert!(!out.trades[0].self_trade);
    let depth = out.depth.unwrap();
    assert_eq!(depth.stream, "depth.SOL_USDC");
    assert!(depth.bids.is_empty());
    assert_eq!(depth.asks, vec![(d(100), d(3))]);
}

#[test]
fn failed_create_is_reported_without_writes() {
    let mut engine = engine_with_users(&["a"]);
    let out = handle_order(&mut engine, create(OrderSide::Buy, 100, 20000, "a", Some(1))).unwrap();
    match &out.reply {
        Reply::CreateOrderFailed { error } => assert_eq!(error, "insufficient funds"),
        other => panic!("unexpected {:?}", other),
    }
    assert!(out.order_records.is_empty() && out.balance_records.is_empty());
    assert!(out.depth.is_none());
}

#[test]
fn cancel_flows_through_service() {
    let mut engine = engine_with_users(&["a"]);
    let out = handle_order(&mut engine, create(OrderSide::Buy, 10, 3, "a", Some(1))).unwrap();
    let id = match out.reply {
        Reply::CreatedOrder { order_id } => order_id,
        other => panic!("unexpected {:?}", other),
    };
    let out = handle_order(
        &mut engine,
        OrderRequests::CancelOrder(CancelOrder {
            order_id: id.clone(),
            user_id: "a".to_string(),
            price: d(10),
            side: OrderSide::Buy,
            market: "SOL_USDC".to_string(),
            pubsub_id: Some(2),
        }),
    )
    .unwrap();
    assert!(matches!(out.reply, Reply::CancelledOrder { .. }));
    assert!(matches!(&out.order_records[0], DatabaseRequests::DeleteOrder { order_id } if *order_id == id));
    assert_eq!(out.balance_records.len(), 2);
    assert_eq!(engine.get_available_balance("a", &Asset::Usdc).unwrap(), d(1000000));

    let out = handle_order(
        &mut engine,
        OrderRequests::CancelAllOrders(CancelAllOrders {
            user_id: "a".to_string(),
            market: "SOL_USDC".to_string(),
            pubsub_id: Some(3),
        }),
    )
    .unwrap();
    assert!(matches!(out.reply, Reply::CancelledAllOrders { .. }));
    assert!(out.order_records.is_empty());
}

#[test]
fn queries_through_service() {
    let mut engine = engine_with_users(&["a"]);
    handle_order(&mut engine, create(OrderSide::Buy, 10, 3, "a", Some(1))).unwrap();
    let out = handle_order(
        &mut engine,
        OrderRequests::GetOpenOrders(GetOpenOrders {
            user_id: "a".to_string(),
            market: "SOL_USDC".to_string(),
            pubsub_id: Some(4),
        }),
    )
    .unwrap();
    match out.reply {
        Reply::OpenOrders(v) => assert_eq!(v.len(), 1),
        other => panic!("unexpected {:?}", other),
    }
    let out = handle_order(
        &mut engine,
        OrderRequests::GetOpenOrder(GetOpenOrder {
            user_id: "a".to_string(),
            order_id: "missing".to_string(),
            market: "SOL_USDC".to_string(),
            pubsub_id: Some(5),
        }),
    )
    .unwrap();
    assert!(matches!(out.reply, Reply::OpenOrderFailed));
    let out = handle_order(
        &mut engine,
        OrderRequests::GetDepth(GetDepth {
            symbol: "SOL_USDC".to_string(),
            pubsub_id: Some(6),
        }),
    )
    .unwrap();
    match out.reply {
        Reply::Depth { bids, asks } => {
            assert_eq!(bids, vec![(d(10), d(3))]);
            assert!(asks.is_empty());
        }
        other => panic!("unexpected {:?}", other),
    }
}

#[test]
fn new_user_gets_starting_balances() {
    let mut engine = engine_with_users(&[]);
    let out = handle_user(
        &mut engine,
        UserRequests::CreateUser(CreateUserInput {
            user_id: "u".to_string(),
            pubsub_id: Some(9),
        }),
    )
    .unwrap();
    assert!(matches!(out.reply, Reply::CreatedUser { .. }));
    assert_eq!(out.balance_records.len(), 2);
    assert_eq!(engine.get_available_balance("u", &Asset::Usdc).unwrap(), d(1000000));
    assert_eq!(engine.get_available_balance("u", &Asset::Sol).unwrap(), d(10000));
}

#[test]
fn order_record_names_side_and_status() {
    let o = Order {
        price: d(5),
        quantity: d(2),
        filled_quantity: d(1),
        order_id: "o".to_string(),
        user_id: "u".to_string(),
        side: OrderSide::Buy,
        order_type: OrderType::Limit,
        order_status: OrderStatus::Cancelled,
        timestamp: 3,
    };
    match persist_order_to_db(&o, "SOL_USDC") {
        DatabaseRequests::UpsertOrder(r) => {
            assert_eq!(r.side, "Buy");
            assert_eq!(r.order_status, "Cancelled");
            assert_eq!(r.filled_quantity, d(1));
        }
        other => panic!("unexpected {:?}", other),
    }
}

#[test]
fn trade_events_flag_self_trades() {
    let mut book = OrderBook::new(
        AssetPair {
            base: Asset::Sol,
            quote: Asset::Usdc,
        },
        0,
    );
    let mk = |side, user: &str, id: &str| Order {
        price: d(5),
        quantity: d(1),
        filled_quantity: d(0),
        order_id: id.to_string(),
        user_id: user.to_string(),
        side,
        order_type: OrderType::Limit,
        order_status: OrderStatus::Pending,
        timestamp: 0,
    };
    book.process_order(mk(OrderSide::Sell, "me", "s"));
    let r = book.process_order(mk(OrderSide::Buy, "me", "b"));
    let events = publish_ws_trades("SOL_USDC", "me", &r.fills, 42);
    assert_eq!(events.len(), 1);
    assert!(events[0].self_trade);
    assert_eq!(events[0].timestamp, 42);
}

#[test]
fn restore_rebuilds_books_and_balances() {
    let mut engine = Engine::new();
    let orders = vec![
        OpenOrderRow {
            order_id: "o1".to_string(),
            user_id: "u".to_string(),
            market: "SOL_USDC".to_string(),
            side: "Buy".to_string(),
            price: d(10),
            quantity: d(4),
            filled_quantity: d(1),
            order_status: "PartiallyFilled".to_string(),
            timestamp: 1,
        },
        OpenOrderRow {
            order_id: "o2".to_string(),
            user_id: "u".to_string(),
            market: "SOL_USDC".to_string(),
            side: "Sideways".to_string(),
            price: d(10),
            quantity: d(4),
            filled_quantity: d(0),
            order_status: "Pending".to_string(),
            timestamp: 1,
        },
        OpenOrderRow {
            order_id: "o3".to_string(),
            user_id: "u".to_string(),
            market: "BTC_USDT".to_string(),
            side: "Sell".to_string(),
            price: d(10),
            quantity: d(4),
            filled_quantity: d(0),
            order_status: "Pending".to_string(),
            timestamp: 1,
        },
    ];
    let balances = vec![
        UserBalanceRow { user_id: "u".to_string(), asset: "USDC".to_string(), available: d(7), locked: d(30) },
        UserBalanceRow { user_id: "u".to_string(), asset: "DOGE".to_string(), available: d(1), locked: d(1) },
        UserBalanceRow { user_id: "u".to_string(), asset: "USDC".to_string(), available: d(8), locked: d(30) },
        UserBalanceRow { user_id: "v".to_string(), asset: "DOGE".to_string(), available: d(1), locked: d(1) },
    ];
    engine.init_engine(41, &orders, &balances);
    assert_eq!(engine.orderbooks.len(), 1);
    assert_eq!(engine.orderbooks[0].trade_id, 42);
    assert_eq!(engine.orderbooks[0].bids.len(), 1);
    assert!(engine.orderbooks[0].asks.is_empty());
    let (bids, _) = engine.orderbooks[0].get_depth();
    assert_eq!(bids, vec![(d(10), d(3))]);
    assert_eq!(engine.get_available_balance("u", &Asset::Usdc).unwrap(), d(8));
    assert!(engine.get_available_balance("v", &Asset::Usdc).is_none());
}
