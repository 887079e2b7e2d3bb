[package]
name = "fanout"
version = "0.1.0"
edition = "2021"
publish = false

[dependencies]
futures-channel = "=0.3.34"
futures-core = "=0.3.34"
futures-util = "=0.3.34"
headers = "=0.4.2"
tokio = { version = "=1.53.2", features = ["fs", "io-util", "rt", "rt-multi-thread", "sync", "time"] }
