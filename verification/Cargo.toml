[package]
name = "docli_cli"
version = "0.1.0"
edition = "2021"
publish = false

[dependencies]
anyhow = "1"
base64 = "=0.22.1"
console = "0.15"
dialoguer = { version = "0.11", features = ["password"] }
hex = "=0.4.3"
rand = "=0.8.8"
reqwest = { version = "=0.12.28", default-features = false, features = ["blocking", "json", "rustls-tls"] }
serde = { version = "1", features = ["derive"] }
serde_json = "=1.0.154"
sha2 = "=0.10.9"
toml = "0.9"
toml_edit = "0.23"
uuid = { version = "=1.29.0", features = ["serde", "v4"] }
