[package]
name = "redirectionio"
version = "0.1.0"
edition = "2021"
publish = false

[dependencies]
regex = "=1.13.1"
serde = { version = "=1.0.229", features = ["derive"] }
http = "=1.5.0"
url = "=2.5.8"
percent-encoding = "=2.3.2"
chrono = "=0.4.45"
