[package]
name = "obby_client"
version = "0.1.0"
edition = "2021"
publish = false

[dependencies]
base64 = "=0.23.1"
chacha20poly1305 = "=0.11.0"
ed25519-dalek = "=3.0.0"
hkdf = "=0.13.0"
hmac = "=0.13.0"
obby-proto = "=0.3.0"
pyo3 = { version = "*", features = ["abi3-py39", "extension-module"] }
serde = { version = "=1.0.229", features = ["derive"] }
serde-wasm-bindgen = "*"
serde_json = "=1.0.154"
sha2 = "=0.11.1"
wasm-bindgen = "*"
x25519-dalek = { version = "=3.0.0", features = ["static_secrets"] }
zeroize = "=1.9.1"
