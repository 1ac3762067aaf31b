[package]
name = "merkle-dag"
version = "0.1.0"
edition = "2021"
publish = false

[dependencies]
async-std = "1"
ciborium = "0.2"
rusqlite = "*"
rusty-leveldb = "*"
serde = { version = "1", features = ["derive"] }
