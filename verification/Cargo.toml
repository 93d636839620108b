[package]
name = "pikadots"
version = "0.2.0"
edition = "2021"
publish = false

[dependencies]
byteorder = "1"
chrono = "0.4"
clap = "2"
failure = { version = "0.1", default-features = false, features = ["std"] }
flate2 = "1"
font8x8 = "*"
glob = "0.3"
image = { version = "0.24", default-features = false, features = ["png"] }
indicatif = "0.17"
parking_lot = "0.12"
regex = "1"
rocket = "0.5"
serde = { version = "1", features = ["derive"] }
serde_json = "1"
streaming-iterator = "*"
