[package]
name = "yescrypt"
version = "0.1.0"
edition = "2021"
publish = false

[dependencies]
sha2 = { version = "0.10", default-features = false }
hmac = "0.12"
pbkdf2 = { version = "0.12", default-features = false, features = ["hmac"] }
