[package]
name = "bubu2bubu"
version = "0.1.0"
edition = "2021"
publish = false

[dependencies]
aes-gcm = "0.10"
base64 = "0.22"
hex = "0.4"
hkdf = "0.12"
image = { version = "0.25", default-features = false, features = ["png", "jpeg"] }
rand = "0.8"
serde = { version = "1", features = ["derive"] }
serde_json = "1"
sha2 = "0.10"
snow = "0.9"
tokio = { version = "1", features = ["net", "io-util", "sync", "rt-multi-thread", "macros", "time"] }
x25519-dalek = { version = "2", features = ["static_secrets"] }
