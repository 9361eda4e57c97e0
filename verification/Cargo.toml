[package]
name = "taletool"
version = "0.1.0"
edition = "2021"
publish = false

[dependencies]
flate2 = "1"
encoding_rs = "0.8"
hex = "0.4"
serde = { version = "1", features = ["derive"] }
serde_json = "1"
clap = { version = "4", features = ["derive"] }
anyhow = "1"
