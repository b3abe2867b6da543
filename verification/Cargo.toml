[package]
name = "durapack"
version = "0.1.0"
edition = "2021"
publish = false

[dependencies]
anyhow = "1"
blake3 = { version = "1", features = ["pure"] }
bytes = "1"
clap = { version = "4", features = ["derive"] }
colored = "2"
crc32c = "0.6"
ed25519-dalek = "2"
hex = "0.4"
indicatif = "0.17"
memchr = "2"
reed-solomon-erasure = "6"
serde = { version = "1", features = ["derive"] }
serde_json = "1"
thiserror = "1"
tracing = "0.1"
tracing-subscriber = { version = "0.3", features = ["env-filter"] }

[dev-dependencies]
rand = "0.8"
