[package]
name = "latency_probe"
version = "0.1.0"
edition = "2021"
publish = false

[dependencies]
anyhow = "1"
chrono = { version = "0.4", default-features = false, features = ["std", "clock"] }
clap = { version = "4", features = ["derive"] }
humantime = "2"
rand = "0.8"
rayon = "1"
reqwest = { version = "0.12", features = ["blocking"] }
