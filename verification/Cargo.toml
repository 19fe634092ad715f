[package]
name = "protofish4"
version = "0.1.0"
edition = "2021"
publish = false

[dependencies]
chacha20poly1305 = "*"
rand = "*"
thiserror = "*"
tokio = { version = "1", features = ["net", "sync", "time", "rt", "rt-multi-thread", "macros"] }
tracing = "0.1"
uuid = { version = "1", features = ["v4"] }
