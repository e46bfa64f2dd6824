[package]
name = "greenscreen"
version = "0.1.0"
edition = "2021"
publish = false

[dependencies]
tokio = { version = "1", features = ["rt-multi-thread", "macros", "net", "sync", "time", "io-util", "signal"] }
tokio-tungstenite = "=0.21.0"
tungstenite = "=0.21.0"
serde = { version = "1", features = ["derive"] }
serde_json = "1"
dashmap = "*"
futures-util = "0.3"
log = "0.4"
