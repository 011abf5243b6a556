[package]
name = "cbmix"
version = "0.1.0"
edition = "2021"
publish = false

[dependencies]
tokio = { version = "1", features = ["sync", "rt-multi-thread", "macros", "time", "signal"] }
uuid = { version = "1", features = ["v4", "v5"] }
