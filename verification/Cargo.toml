[package]
name = "safe_core"
version = "0.1.0"
edition = "2021"
publish = false

[dependencies]
self_encryption = "=0.36.0"
aes-siv = "=0.8.0"
rand = "=0.8.8"
sha2 = "=0.10.9"
bytes = "=1.12.1"
