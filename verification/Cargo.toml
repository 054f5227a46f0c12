[package]
name = "libactionkv"
version = "0.1.0"
edition = "2021"
publish = false

[dependencies]
bincode = "1"
byteorder = "1"
crc = "3"
serde = { version = "1", features = ["derive"] }
