[package]
name = "relay_core"
version = "0.1.0"
edition = "2021"
publish = false

[dependencies]
lru = "0.12"
uuid = { version = "1", features = ["v4"] }
protobuf = "3"
crossbeam-channel = "0.5"
