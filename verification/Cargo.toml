[package]
name = "bricklayers"
version = "0.1.0"
edition = "2021"
publish = false

[dependencies]
clap = { version = "4", features = ["derive"] }
crc32fast = "1"
flate2 = "1"
thiserror = "2"
