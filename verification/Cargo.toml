[package]
name = "poststation_sdk"
version = "0.1.0"
edition = "2021"
publish = false

[dependencies]
anyhow = "*"
clap = { version = "*", features = ["derive"] }
directories = "*"
postcard = { version = "=1.1.3", features = ["use-std"] }
postcard-rpc = "=0.12.1"
rand = "*"
rustls = "*"
serde = { version = "*", features = ["derive"] }
serde_json = "*"
tokio = { version = "*", features = ["net", "io-util", "rt-multi-thread", "macros", "sync", "time"] }
tokio-rustls = "*"
uuid = "*"

[dev-dependencies]
cobs = "=0.5.1"
postcard-dyn = "=0.2.1"
postcard-schema = "*"
