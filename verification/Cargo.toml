[package]
name = "loglumen"
version = "0.1.0"
edition = "2021"
publish = false

[dependencies]
actix-cors = "*"
actix-web = "*"
chrono = "*"
parking_lot = "*"
percent-encoding = "*"
serde = { version = "*", features = ["derive"] }
serde_json = "*"
