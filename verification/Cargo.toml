[package]
name = "steg"
version = "0.1.0"
edition = "2021"
publish = false

[dependencies]
aes-soft = "=0.6.4"
block-modes = "=0.7.0"
pbkdf2 = { version = "=0.8.0", default-features = false }
hmac = "=0.11.0"
sha2 = "=0.9.9"
rpassword = "=5.0.1"
structopt = "=0.3.26"

[dev-dependencies]
hex = "0.4"
