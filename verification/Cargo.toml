[package]
name = "activitywatch"
version = "0.1.0"
edition = "2021"
publish = false

[dependencies]
chrono = { version = "=0.4.45", features = ["serde"] }
serde = { version = "=1.0.229", features = ["derive"] }
serde_json = "=1.0.154"
sonic-rs = "=0.5.10"
toml = "=1.1.8"
reqwest = { version = "=0.13.5", default-features = false, features = ["json"] }
tokio = { version = "=1.54.1", features = ["rt", "time", "net", "io-util"] }
dirs = "=7.0.0"
fs4 = "=0.13.1"
log = "=0.4.35"
rand = "=0.9.5"
clap = { version = "=4.6.7", features = ["derive", "env"] }
mpsc_requests = "=0.3.4"
rusqlite = { version = "=0.41.1", features = ["bundled"] }
duckdb = "=1.20000.1"
sd-notify = "=0.5.0"
