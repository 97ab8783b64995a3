[package]
name = "gridentify"
version = "0.1.0"
edition = "2021"
publish = false

[dependencies]
array-init = "=2.1.0"
rand = "=0.8.8"
serde = { version = "=1.0.229", features = ["derive"] }
serde_json = "=1.0.154"
rusqlite = { version = "=0.31.0", features = ["bundled"] }
tungstenite = "0.20"
native-tls = "0.2"
simple-error = "0.3"
log = "0.4"
simple_logger = "4"
ratelimit_meter = "5"
