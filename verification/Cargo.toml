[package]
name = "async_rudp"
version = "0.1.0"
edition = "2021"
publish = false

[dependencies]
tokio = { version = "1", features = ["net", "rt-multi-thread", "macros", "time", "sync"] }
