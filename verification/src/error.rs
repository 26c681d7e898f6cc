//! Errors produced by the exchange engine.

use vstd::prelude::*;
use vstd::string::*;

verus! {

#[derive(Debug, Clone, PartialEq, Eq)]
pub enum EngineError {
    UnsupportedAsset(String),
    OrderBookNotFound(String),
    InsufficientFunds,
    UserNotFound(String),
    MutexPoisoned,
    NoBalanceForAsset(String),
    OrderNotFound,
    InvalidMarketFormat(String),
    SerializationError(String),
    RedisError(String),
    InvalidPrice,
    InvalidQuantity,
}

/// The message describing an error.
pub open spec fn error_message(e: EngineError) -> Seq<char> {
    match e {
        EngineError::UnsupportedAsset(s) => "unsupported asset: "@ + s@,
        EngineError::OrderBookNotFound(m) => "no orderbook for market: "@ + m@,
        EngineError::InsufficientFunds => "insufficient funds"@,
        EngineError::UserNotFound(u) => "user not found: "@ + u@,
        EngineError::MutexPoisoned => "mutex poisoned"@,
        EngineError::NoBalanceForAsset(a) => "no balance for asset: "@ + a@,
        EngineError::OrderNotFound => "order not found"@,
        EngineError::InvalidMarketFormat(m) => "invalid market format: "@ + m@,
        EngineError::SerializationError(e) => "serialization error: "@ + e@,
        EngineError::RedisError(e) => "redis error: "@ + e@,
        EngineError::InvalidPrice => "price must be positive"@,
        EngineError::InvalidQuantity => "quantity must be positive"@,
    }
}

fn prefixed(prefix: &str, detail: &String) -> (r: String)
    ensures
        r@ == prefix@ + detail@,
{
    let mut r = String::from_str(prefix);
    r.append(detail.as_str());
    r
}

impl EngineError {
    /// The error's message, as shown to clients.
    pub fn to_string(&self) -> (r: String)
        ensures
            r@ == error_message(*self),
    {
        match self {
            EngineError::UnsupportedAsset(s) => prefixed("unsupported asset: ", s),
            EngineError::OrderBookNotFound(m) => prefixed("no orderbook for market: ", m),
            EngineError::InsufficientFunds => String::from_str("insufficient funds"),
            EngineError::UserNotFound(u) => prefixed("user not found: ", u),
            EngineError::MutexPoisoned => String::from_str("mutex poisoned"),
            EngineError::NoBalanceForAsset(a) => prefixed("no balance for asset: ", a),
            EngineError::OrderNotFound => String::from_str("order not found"),
            EngineError::InvalidMarketFormat(m) => prefixed("invalid market format: ", m),
            EngineError::SerializationError(e) => prefixed("serialization error: ", e),
            EngineError::RedisError(e) => prefixed("redis error: ", e),
            EngineError::InvalidPrice => String::from_str("price must be positive"),
            EngineError::InvalidQuantity => String::from_str("quantity must be positive"),
        }
    }

    /// An unsupported-asset error carrying `s`.
    pub fn from(s: &'static str) -> (e: EngineError)
        ensures
            e matches EngineError::UnsupportedAsset(m) && m@ == s@,
    {
        EngineError::UnsupportedAsset(String::from_str(s))
    }
}

} // verus!
