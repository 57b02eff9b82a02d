[package]
name = "red_black_knights"
version = "0.1.0"
edition = "2021"
publish = false

[dependencies]
rand = "=0.9.5"
serde = { version = "=1.0.229", features = ["derive"] }
serde_json = "=1.0.154"
toml = "=0.8.23"
base64 = "=0.22.1"
png = "=0.17.16"
dirs = "=6.0.0"
image = { version = "0.25", default-features = false, features = ["png"] }
