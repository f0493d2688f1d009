[package]
name = "asn1_codec"
version = "0.1.0"
edition = "2021"
publish = false

[dependencies]
num = { version = "=0.4.3", features = ["serde"] }
serde = { version = "=1.0.229", features = ["derive"] }
clap = { version = "=4.6.7", features = ["derive"] }
