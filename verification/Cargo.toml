[package]
name = "drax"
version = "0.1.0"
edition = "2021"
publish = false

[dependencies]
cesu8 = "1"
flate2 = "1"
aes = "0.7"
cfb8 = "0.7"
tokio = { version = "1", features = ["io-util"] }
