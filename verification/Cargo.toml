[package]
name = "bitcoin-asmap-quorum"
version = "0.1.0"
edition = "2021"
publish = false

[dependencies]
anyhow = "1"
env_logger = { version = "0.11", default-features = false }
flate2 = "1"
futures = "0.3"
hex = "0.4"
libp2p = { version = "0.56", features = ["dcutr", "dns", "ed25519", "gossipsub", "identify", "macros", "mdns", "noise", "quic", "relay", "tcp", "tokio", "yamux"] }
log = "0.4"
mrt-rs = "*"
reqwest = { version = "0.12", default-features = false, features = ["blocking", "rustls-tls"] }
serde = { version = "1", features = ["derive"] }
serde_json = "1"
sha2 = "0.10"
thiserror = "2"
tokio = { version = "1", features = ["full"] }
