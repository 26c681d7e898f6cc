[package]
name = "exchange"
version = "0.1.0"
edition = "2021"
publish = false

[dependencies]
rust_decimal = "=1.43.0"
uuid = { version = "=1.29.0", features = ["v4", "serde"] }
chrono = "=0.4.45"
serde = { version = "=1.0.229", features = ["derive"] }
serde_json = "=1.0.154"
fred = { version = "=9.4.0", features = ["subscriber-client"] }
tokio = { version = "=1.54.1", features = ["full"] }
sqlx = { version = "=0.8.6", default-features = false, features = ["postgres", "runtime-tokio", "rust_decimal", "bigdecimal"] }
actix-web = { version = "=4.18.1", default-features = false, features = ["macros"] }
actix-cors = "=0.7.2"
actix-governor = "=0.10.0"
tokio-tungstenite = "=0.24.0"
futures-util = "=0.3.34"
rand = "=0.8.8"
