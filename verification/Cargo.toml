[package]
name = "floe_executor"
version = "0.1.0"
edition = "2021"
publish = false

[dependencies]
anyhow = "=1.0.104"
bytes = "=1.12.1"
chrono = "=0.4.45"
datafusion = { version = "=50.3.0", default-features = false }
futures = "=0.3.34"
nexmark = "=0.2.0"
postgres-protocol = "=0.6.12"
postgres-types = "=0.2.14"
prometheus = "=0.14.0"
regex = "=1.13.1"
serde = "=1.0.229"
serde_json = "=1.0.154"
tokio = { version = "=1.54.1", features = ["io-util", "macros", "net", "rt-multi-thread", "sync", "time"] }
tokio-util = "=0.7.20"
tracing = "=0.1.44"
