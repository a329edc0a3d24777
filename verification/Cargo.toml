[package]
name = "kkrpc"
version = "0.1.0"
edition = "2021"
publish = false

[dependencies]
rand = "0.8"
websocket = { version = "0.27", default-features = false, features = ["sync"] }
tokio = { version = "1", features = ["rt-multi-thread", "macros", "time"] }
futures = "0.3"
async-trait = "0.1"
uuid = { version = "1", features = ["v4"] }

[dev-dependencies]
serde_json = "1"
