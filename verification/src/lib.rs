//! A spot-exchange matching engine: order books with price-time priority,
//! per-user balances with fund locking, and the request/response logic of
//! the services around them (engine, database writer, websocket fan-out and
//! HTTP router).

pub mod dec;
pub mod text;
pub mod types;
pub mod error;
pub mod orderbook;
pub mod engine;
pub mod laws;
pub mod balance_laws;
pub mod ws;
pub mod router;
pub mod records;
pub mod stream;
pub mod service;
pub mod restore;
