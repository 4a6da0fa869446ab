[package]
name = "alex_db"
version = "0.1.0"
edition = "2021"
publish = false

[dependencies]
lz4_flex = "0.11"
uuid = { version = "1", features = ["v4"] }
chrono = "0.4"
