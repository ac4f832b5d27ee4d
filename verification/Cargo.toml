[package]
name = "trade_core"
version = "0.1.0"
edition = "2021"
publish = false

[dependencies]
futures = "0.3"
libc = "0.2"
mysql = { version = "25", default-features = false, features = ["minimal"] }
protobuf = "2"
raft = { version = "0.7", default-features = false, features = ["protobuf-codec"] }
rdkafka = "0.36"
