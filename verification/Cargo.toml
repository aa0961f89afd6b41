[package]
name = "dbkv"
version = "0.1.0"
edition = "2021"
publish = false

[dependencies]
crc = "1"
bincode = "1"
serde = "1"
serde_derive = "1"

[dev-dependencies]
byteorder = "1"
