[package]
name = "md_aggregator"
version = "0.1.0"
edition = "2021"
publish = false

[dependencies]
arc-swap = "*"
archery = "=1.2.3"
base64 = "=0.23.1"
hyper = { version = "0.14", features = ["full"] }
mime_guess = "*"
mustache = "=0.9.0"
once_cell = "*"
reqwest = { version = "*", default-features = false, features = ["json"] }
rpds = "=1.2.1"
serde = { version = "*", features = ["derive"] }
tokio = { version = "*", features = ["full"] }
toml = "*"
tracing = "*"
tracing-subscriber = "*"
urlencoding = "*"
