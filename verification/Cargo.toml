[package]
name = "m2_corpus"
version = "0.1.0"
edition = "2021"
publish = false

[dependencies]
bincode = "=1.3.3"
chrono = { version = "=0.4.45", features = ["serde"] }
macroquad = "=0.4.16"
regex = "=1.13.1"
rfd = { version = "=0.17.2", default-features = false, features = ["xdg-portal"] }
scraper = "=0.29.0"
serde = { version = "=1.0.229", features = ["derive"] }
serde_json = "=1.0.154"
walkdir = "=2.5.0"
