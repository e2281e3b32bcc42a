[package]
name = "rt_db"
version = "0.1.0"
edition = "2021"
publish = false

[dependencies]
urlencoding = "=2.1.3"
anyhow = "=1.0.104"
chrono = "=0.4.45"
duckdb = { version = "=1.10506.0", default-features = false }
tiberius = { version = "=0.13.0", features = ["chrono"] }
tokio = { version = "=1.53.2", features = ["rt-multi-thread", "macros", "time", "net", "signal"] }
tokio-util = { version = "=0.7.19", features = ["compat"] }
toml = "=1.1.6"
serde = { version = "=1.0.229", features = ["derive"] }
tracing = "=0.1.44"
tracing-subscriber = { version = "=0.3.23", features = ["env-filter", "fmt"] }
tracing-appender = "=0.2.5"
time = "=0.3.55"
