[package]
name = "cell_sdk"
version = "0.1.0"
edition = "2021"
publish = false

[dependencies]
keccak-hasher = "=0.16.0"
hash-db = "=0.16.0"
hash256-std-hasher = "=0.15.2"
hex = "=0.4.3"
serde = { version = "=1.0.229", features = ["derive"] }
serde_json = "=1.0.154"
toml = "=1.1.8"
thiserror = "=1.0.69"
anyhow = "=1.0.104"
ansi_term = "=0.12.1"
chrono = "=0.4.45"
backtrace = "=0.3.77"
log = "0.4"
log4rs = { version = "1", default-features = false, features = ["console_appender", "pattern_encoder"] }
lazy_static = "1"
