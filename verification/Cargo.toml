[package]
name = "maroon"
version = "0.1.0"
edition = "2021"
publish = false

[dependencies]
sha2 = "=0.10.9"
serde = { version = "1", features = ["derive"] }
serde_json = "1"
tokio = { version = "1", features = ["rt-multi-thread", "macros", "sync", "time"] }
futures = "0.3"
log = "0.4"
env_logger = { version = "0.11", default-features = false }
derive_more = { version = "2", features = ["display"] }
libp2p = { version = "0.57", features = ["tokio", "tcp", "noise", "yamux", "gossipsub", "ping", "dns", "macros", "request-response", "serde", "ed25519"] }
libp2p-request-response = { version = "0.30", features = ["json"] }
