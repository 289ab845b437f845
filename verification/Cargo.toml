[package]
name = "pokergoat_solver"
version = "0.1.0"
edition = "2021"
publish = false

[dependencies]
anyhow = "1"
brotli = "*"
clap = { version = "4", features = ["derive"] }
rayon = "1"
serde = { version = "1", features = ["derive"] }
serde_json = "1"
