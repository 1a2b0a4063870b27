[package]
name = "fair_shuffle"
version = "0.1.0"
edition = "2021"
publish = false

[dependencies]
itertools = "0.12"
rand = "0.8"
clap = { version = "4", features = ["derive"] }
rspotify = { version = "0.13", default-features = false, features = ["client-ureq", "ureq-rustls-tls", "cli", "env-file"] }
