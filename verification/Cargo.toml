[package]
name = "token_stash"
version = "0.1.0"
edition = "2021"

[dependencies]
bincode = "1"
db-key = "*"
env_logger = "*"
leveldb = "*"
leveldb-sys = "*"
log = "*"
rand = "0.8"
serde = { version = "1", features = ["derive"] }
sha256 = "*"
