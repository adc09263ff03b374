[package]
name = "floresta_db"
version = "0.1.0"
edition = "2021"
publish = false

[dependencies]
bitcoin = "0.32"
corepc-client = { version = "*", features = ["client-sync"] }
