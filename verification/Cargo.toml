[package]
name = "mcproto"
version = "0.1.0"
edition = "2021"
publish = false

[dependencies]
aes = "0.8"
flate2 = "1"
tokio = { version = "1", features = ["net", "io-util", "rt", "macros"] }
