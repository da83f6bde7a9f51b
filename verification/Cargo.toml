[package]
name = "babelfix"
version = "0.1.0"
edition = "2021"
publish = false

[dependencies]
bytes = "1"
chrono = "0.4"
futures = "0.3"
proc-macro2 = "1"
quick-xml = "0.37"
quote = "1"
serde = { version = "1", features = ["derive"] }
syn = { version = "2", features = ["full"] }
thiserror = "2"
tokio = { version = "1", features = ["net", "rt", "rt-multi-thread", "io-util", "sync", "time", "macros"] }
tokio-util = { version = "0.7", features = ["codec"] }
tracing = "0.1"
