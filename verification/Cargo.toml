[package]
name = "device_catalog"
version = "0.1.0"
edition = "2021"
publish = false

[dependencies]
openssl = "*"
uuid = { version = "*", features = ["serde"] }
serde = { version = "*", features = ["derive"] }
serde_json = "*"
clap = { version = "*", features = ["derive"] }
tracing = "*"
tracing-subscriber = { version = "*", features = ["env-filter"] }
base64urlsafedata = "*"
