[package]
name = "server"
version = "0.1.0"
edition = "2021"
publish = false

[dependencies]
bytes = "1"
futures = "0.3"
indoc = "2"
rand = "*"
serde = { version = "1", features = ["derive"] }
sha2 = "*"
tokio = { version = "1", features = ["net", "io-util", "rt-multi-thread", "macros", "sync", "time"] }
tokio-util = { version = "0.7", features = ["codec"] }
toml = "*"
tracing = "0.1"
tracing-subscriber = "0.3"
