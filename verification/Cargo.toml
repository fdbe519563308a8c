[package]
name = "ferrite_db"
version = "0.1.0"
edition = "2021"
publish = false

[dependencies]
sqlparser = "*"
serde = { version = "*", features = ["derive"] }
serde_json = "*"

[dev-dependencies]
bincode = "1"
