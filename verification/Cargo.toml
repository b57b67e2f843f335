[package]
name = "state_store"
version = "0.1.0"
edition = "2021"
publish = false

[dependencies]
anyhow = "*"
bincode = "1"
borsh = "*"
bytes = "*"
jmt = "*"
serde = { version = "*", features = ["derive"] }
