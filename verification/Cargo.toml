[package]
name = "sqlsync"
version = "0.1.0"
edition = "2021"
publish = false

[dependencies]
anyhow = "1"
bs58 = "0.5"
byteorder = "1"
hex = "0.4"
log = "0.4"
rand = "0.8"
rusqlite = "0.29"
serde = { version = "1", features = ["derive"] }
sqlite-vfs = "0.2"
thiserror = "1"
