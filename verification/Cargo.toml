[package]
name = "throttle"
version = "0.5.3"
edition = "2021"
publish = false

[dependencies]
rand = "0.8"
tokio = { version = "1", features = ["macros", "rt-multi-thread", "sync", "time", "signal", "net"] }
axum = "0.7"
serde = { version = "1", features = ["derive"] }
serde_json = "1"
toml = "0.8"
humantime = "2"
humantime-serde = "1"
prometheus = "0.13"
log = "0.4"
env_logger = "0.11"
clap = { version = "4", features = ["derive"] }
anyhow = "1"
thiserror = "1"
percent-encoding = "2"
async-events = "*"
lazy_static = "1"
reqwest = { version = "0.12", default-features = false, features = ["json"] }
