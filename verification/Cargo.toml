[package]
name = "p2wviewer"
version = "0.1.0"
edition = "2021"
publish = false

[dependencies]
aes-gcm = "0.10"
anyhow = "1"
argon2 = "0.5"
byteorder = "1"
clap = { version = "4", features = ["derive"] }
env_logger = "0.11"
image = { version = "0.25", default-features = false, features = ["png", "jpeg", "gif", "bmp"] }
log = "0.4"
rand = "0.9"
regex = "1"
sha2 = "0.10"
