[package]
name = "udpcon"
version = "0.1.0"
edition = "2021"
publish = false

[dependencies]
crc = "1"
mio = { version = "1", features = ["net", "os-poll"] }
