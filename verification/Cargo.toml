[package]
name = "syncstorage"
version = "0.1.0"
edition = "2021"
publish = false

[dependencies]
hkdf = "*"
sha2 = "*"
serde = { version = "*", features = ["derive"] }
config = "*"
