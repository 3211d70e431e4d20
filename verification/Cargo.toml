[package]
name = "phasecraft"
version = "0.1.0"
edition = "2021"
publish = false

[dependencies]
sha2 = "=0.10.9"
serde = { version = "=1.0.229", features = ["derive"] }
serde_json = "=1.0.154"
toml = "=0.8.23"
clap = { version = "=4.6.7", features = ["derive"] }
midir = "=0.11.1"
ctrlc = "=3.5.2"
reqwest = { version = "0.12", default-features = false, features = ["blocking", "rustls-tls"] }
tempfile = "3"
self-replace = "1"
