[package]
name = "telepath"
version = "0.1.0"
edition = "2021"
publish = false

[dependencies]
cobs = "=0.5.1"
rzcobs = "=0.1.2"
postcard = { version = "=1.1.3", features = ["use-std"] }
serde = { version = "=1.0.229", features = ["derive"] }
serde_json = "=1.0.154"
postcard-schema = { version = "=0.2.5", features = ["use-std", "derive"] }
thiserror = "=2.0.21"
anyhow = "=1.0.104"
clap = { version = "=4.6.7", features = ["derive", "env"] }
rustyline = "=19.0.0"
syn = { version = "=2.0.119", features = ["full"] }
quote = "=1.0.47"
proc-macro2 = "=1.0.107"
serialport = { version = "4", default-features = false }
rmcp = { version = "*", features = ["server", "transport-io"] }
tokio = { version = "1", features = ["rt-multi-thread", "sync", "macros", "io-std"] }
