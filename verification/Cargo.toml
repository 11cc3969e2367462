[package]
name = "hypercube"
version = "0.1.0"
edition = "2021"
publish = false

[dependencies]
blake3 = "1"
brotli = "3"
clap = { version = "4", features = ["derive"] }
hmac = "0.12"
lz4_flex = "0.11"
rand = "0.8"
serde = { version = "1", features = ["derive"] }
serde_json = "1"
sha2 = "0.10"
sha3 = "0.10"
thiserror = "1"
zstd = "0.13"
