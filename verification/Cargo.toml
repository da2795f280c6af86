[package]
name = "cryptit"
version = "0.1.0"
edition = "2021"
publish = false

[dependencies]
aes-gcm = "0.10"
base64 = "0.22"
rand = "0.8"
shamirs = "*"
zeroize = "1"
serde = { version = "1", features = ["derive"] }
thiserror = "1"
