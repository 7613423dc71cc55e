[package]
name = "colink_core"
version = "0.1.0"
edition = "2021"
publish = false

[dependencies]
hex = "*"
secp256k1 = "*"
uuid = { version = "*", features = ["v4"] }
toml = "*"
reqwest = { version = "*", default-features = false, features = ["blocking"] }
