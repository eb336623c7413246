[package]
name = "rustydo"
version = "0.1.0"
edition = "2021"
publish = false

[dependencies]
encoding = "0.2"
rand = "0.8"
sha3 = "0.10"
hex = "0.4"
anyhow = "1"
tokio = { version = "1", features = ["full"] }
serde = { version = "1", features = ["derive"] }
serde_json = "1"
chrono = "0.4"
nosqlite = "*"
config = { version = "0.13", default-features = false, features = ["toml"] }
