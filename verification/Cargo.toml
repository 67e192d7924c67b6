[package]
name = "aimp_node"
version = "0.4.0"
edition = "2021"
publish = false

[dependencies]
blake3 = "1"
hex = "0.4"
ed25519-dalek = { version = "2", features = ["rand_core"] }
x25519-dalek = { version = "2", features = ["static_secrets"] }
rand = "0.8"
serde = { version = "1", features = ["derive"] }
serde_json = "1"
serde_repr = "0.1"
serde_bytes = "0.11"
rmp-serde = "1"
thiserror = "1"
tokio = { version = "1", features = ["full"] }
clap = { version = "4", features = ["derive"] }
config = "0.14"
smallvec = { version = "1", features = ["serde"] }
rustc-hash = "1"
slab = "0.4"
redb = "2"
chacha20poly1305 = "0.10"
hkdf = "0.12"
sha2 = "0.10"
snow = "0.9"
dashmap = "5"
once_cell = "1"
prometheus = "0.13"
axum = "0.7"
ratatui = "0.26"
crossterm = "0.27"
