[package]
name = "srrdb"
version = "0.2.0"
edition = "2021"
publish = false

[dependencies]
bincode = "1.3"
bytes = "1"
clap = { version = "4", features = ["derive"] }
colored = "2"
rand = "0.8"
rustyline = "14"
serde = { version = "1", features = ["derive"] }
sha1 = "0.10"
sqlparser = "0.55"
tokio = { version = "1", features = ["full"] }
toml = "0.8"
tracing = "0.1"
tracing-subscriber = { version = "0.3", features = ["env-filter"] }
