[package]
name = "pms_master"
version = "0.1.0"
edition = "2021"
publish = false

[dependencies]
actix = "=0.13.5"
async-compression = { version = "=0.4.52", features = ["futures-io", "brotli"] }
async-std = "=1.13.2"
async-tar = { version = "=0.4.2", default-features = false }
bincode = "=1.3.3"
blake3 = "=1.8.7"
chacha20poly1305 = "=0.10.1"
futures = "=0.3.34"
generic-array = "=0.14.7"
k256 = { version = "=0.13.4", features = ["ecdh"] }
log = "=0.4.35"
rand = "=0.8.8"
s2n-quic = "=1.91.0"
serde = { version = "=1.0.229", features = ["derive"] }
uuid = { version = "=1.29.0", features = ["v4"] }
