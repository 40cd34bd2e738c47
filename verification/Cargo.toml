[package]
name = "famchat_core"
version = "0.1.0"
edition = "2021"
publish = false

[dependencies]
anyhow = "1"
argon2 = "0.5"
async-trait = "0.1"
chacha20poly1305 = "0.10"
directories = "*"
ed25519-dalek = { version = "2", features = ["rand_core", "zeroize"] }
hex = "0.4"
hkdf = "0.12"
rand = "0.8"
serde = { version = "1", features = ["derive"] }
serde_json = "1"
sha2 = "0.10"
snow = "0.9"
spake2 = "0.4"
tokio = { version = "1", features = ["full"] }
x25519-dalek = { version = "2", features = ["static_secrets", "zeroize"] }
zeroize = "1"
