[package]
name = "nostr_store"
version = "0.1.0"
edition = "2021"
publish = false

[dependencies]
async-stream = "0.3"
iced_futures = "0.7"
log = "0.4"
nostr-sdk = { version = "0.12", default-features = false }
tokio = { version = "1", features = ["rt", "sync"] }
