[package]
name = "pkcore"
version = "0.1.0"
edition = "2021"
publish = false

[dependencies]
uuid = { version = "=1.29.0", features = ["v4"] }
thousands = "=0.2.0"
serde = { version = "=1.0.229", features = ["derive"] }
serde_yaml = "=0.9.34"
chrono = "=0.4.45"
cardpack = { version = "=0.11.2", features = ["std"] }
pkstate = "=0.1.2"
