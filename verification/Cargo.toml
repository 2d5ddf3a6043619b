[package]
name = "bitebuds"
version = "0.1.0"
edition = "2021"
publish = false

[dependencies]
uuid = { version = "1", features = ["v4"] }
chrono = "0.4"
tokio = { version = "1", features = ["rt", "rt-multi-thread", "macros", "time", "fs", "sync", "process", "io-util"] }
