[package]
name = "gossip_sim"
version = "0.1.0"
edition = "2021"
publish = false

[dependencies]
solana-sdk = { version = "5.0.0", default-features = false }
indexmap = "2.14.2"
lru = "0.19.0"
crossbeam-channel = "0.5.17"
log = "0.4.35"
rand = "0.8"
clap = "3"
serde_yaml = "0.9.34"
dotenv = "0.15.0"
rayon = "1.12.0"
url = "2.5.8"
thiserror = "2.0.21"
solana-logger = "3.0.0"
reqwest = { version = "0.12.28", default-features = false }
tokio = { version = "1.54.1", features = ["rt", "macros"] }
