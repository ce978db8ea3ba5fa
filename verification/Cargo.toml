[package]
name = "prism-core"
version = "0.1.0"
edition = "2021"
publish = false

[dependencies]
aes-gcm = "=0.10.3"
chacha20poly1305 = "=0.10.1"
getrandom = "=0.3.4"
hkdf = "=0.12.4"
hmac = "=0.12.1"
reed-solomon-erasure = "=6.0.0"
sha2 = "=0.10.9"
snow = { version = "=0.10.0", features = ["risky-raw-split"] }
spake2 = "=0.4.0"
subtle = "=2.6.1"
thiserror = "=2.0.21"
