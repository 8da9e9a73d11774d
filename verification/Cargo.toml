[package]
name = "mmo"
version = "0.1.0"
edition = "2021"
publish = false

[dependencies]
byteorder = "1"
opus = "0.3"
serde = "1"
serde_derive = "1"
toml = "0.5"
clap = "2"
chrono = "0.4"
log = "0.4"
pretty_env_logger = "0.4"
futures = "0.1"
tokio-core = "0.1"
