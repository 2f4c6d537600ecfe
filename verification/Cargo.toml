[package]
name = "playrust_alert"
version = "0.1.0"
edition = "2021"
publish = false

[dependencies]
rust-tfidf = "=1.1.1"
rsml = "=0.1.0"
dedup_by = "=0.1.0"
rayon = "=1.12.0"
clap = "=4.6.7"
csv = "=1.4.0"
serde = { version = "=1.0.229", features = ["derive"] }
