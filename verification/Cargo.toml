[package]
name = "token_vault"
version = "0.1.0"
edition = "2021"
publish = false

[dependencies]
sled = "0.34"
rand = "0.8"
sha2 = "0.10"
base64 = "0.22"
serde = { version = "1", features = ["derive"] }
actix-web = "4"
