[package]
name = "bob"
version = "0.1.0"
edition = "2021"
publish = false

[dependencies]
anyhow = "*"
bidiff = "=1.0.0"
bipatch = "=1.0.0"
chrono = "*"
clap = { version = "*", features = ["derive"] }
env_logger = "*"
glob = "*"
ignore = "*"
infer = "=0.22.0"
log = "*"
rapidhash = "=1.4.0"
serde = { version = "*", features = ["derive"] }
serde-value = "*"
tar = "=0.4.46"
toml = "*"
zstd = "=0.14.0"
