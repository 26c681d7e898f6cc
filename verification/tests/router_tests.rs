use exchange::dec::Dec;
use exchange::records::parse_custom_date;
use exchange::router::{kline_interval, start_time_millis, ApiKeyAuth, GetKlinesInput, RedisQueues};
use exchange::types::{CancelOrder, CreateOrder, OrderSide};

fn order(price: i64, qty: i64, market: &str, user: &str) -> CreateOrder {
    CreateOrder {
        market: market.to_string(),
        price: Dec::from_int(price),
        quantity: Dec::from_int(qty),
        side: OrderSide::Buy,
        user_id: user.to_string(),
        pubsub_id: None,
    }
}

#[test]
fn create_order_validation() {
    assert_eq!(order(1, 1, "SOL_USDC", "u").validate(), Ok(()));
    assert_eq!(order(0, 1, "SOL_USDC", "u").validate(), Err("price must be positive"));
    assert_eq!(order(1, -2, "SOL_USDC", "u").validate(), Err("quantity must be positive"));
    assert_eq!(order(1, 1, "", "u").validate(), Err("market is required"));
    assert_eq!(order(1, 1, "SOL_USDC", "").validate(), Err("user_id is required"));
}

#[test]
fn cancel_order_validation() {
    let c = |id: &str, user: &str, price: i64| CancelOrder {
        order_id: id.to_string(),
        user_id: user.to_string(),
        price: Dec::from_int(price),
        side: OrderSide::Sell,
        market: "SOL_USDC".to_string(),
        pubsub_id: None,
    };
    assert_eq!(c("o", "u", 5).validate(), Ok(()));
    assert_eq!(c("", "u", 5).validate(), Err("order_id is required"));
    assert_eq!(c("o", "", 5).validate(), Err("user_id is required"));
    assert_eq!(c("o", "u", 0).validate(), Err("price must be positive"));
}

#[test]
fn kline_intervals() {
    assert_eq!(kline_interval("1y"), "year");
    assert_eq!(kline_interval("1M"), "month");
    assert_eq!(kline_interval("1w"), "week");
    assert_eq!(kline_interval("1D"), "day");
    assert_eq!(kline_interval("1h"), "hour");
    assert_eq!(kline_interval("1MIN"), "minute");
    assert_eq!(kline_interval("5m"), "week");
    let mut q = GetKlinesInput {
        symbol: "SOL_USDC".to_string(),
        interval: "1d".to_string(),
        start_time: "0".to_string(),
    };
    q.normalize_interval();
    assert_eq!(q.interval, "day");
    assert_eq!(q.symbol, "SOL_USDC");
}

#[test]
fn api_key_check() {
    let auth = ApiKeyAuth::new("secret".to_string());
    let mw = auth.new_transform(());
    assert!(mw.admits("/api/v1/health", None));
    assert!(mw.admits("/api/v1/ready", Some("nope")));
    assert!(mw.admits("/api/v1/order", Some("secret")));
    assert!(!mw.admits("/api/v1/order", Some("nope")));
    assert!(!mw.admits("/api/v1/order", None));
    assert!(!mw.admits("/api/v1/healt", None));
}

#[test]
fn queue_names() {
    assert_eq!(RedisQueues::Orders.to_string(), "orders");
    assert_eq!(RedisQueues::Users.to_string(), "users");
    assert_eq!(RedisQueues::Database.to_string(), "database");
}

#[test]
fn start_time_parsing() {
    assert_eq!(start_time_millis("1700000000000"), 1700000000000);
    assert_eq!(start_time_millis("-5"), -5);
    assert_eq!(start_time_millis("+7"), 7);
    assert_eq!(start_time_millis(""), 0);
    assert_eq!(start_time_millis("-"), 0);
    assert_eq!(start_time_millis("12a"), 0);
    assert_eq!(start_time_millis("9223372036854775807"), i64::MAX);
    assert_eq!(start_time_millis("-9223372036854775808"), i64::MIN);
    assert_eq!(start_time_millis("9223372036854775808"), 0);
    assert_eq!(start_time_millis("99999999999999999999999"), 0);
}

#[test]
fn custom_dates_are_written_in_utc() {
    assert_eq!(
        parse_custom_date("2024-01-02 03:04:05.5 +00:00:00").unwrap(),
        "2024-01-02 03:04:05.500 UTC"
    );
    assert_eq!(
        parse_custom_date("2024-01-02 03:04:05 +01:00").unwrap(),
        "2024-01-02 02:04:05 UTC"
    );
    assert!(parse_custom_date("yesterday").is_none());
}
