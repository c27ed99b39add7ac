[package]
name = "pngkey"
version = "0.1.0"
edition = "2021"
publish = false

[dependencies]
argon2 = "*"
base64 = "*"
chacha20poly1305 = "*"
clap = { version = "*", features = ["derive"] }
crc = "*"
