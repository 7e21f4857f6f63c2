[package]
name = "broadcast_server"
version = "0.1.0"
edition = "2021"
publish = false

[dependencies]
simple-websockets = "*"

[dev-dependencies]
serde_json = "*"
