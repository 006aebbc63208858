[package]
name = "iron_scout_cad"
version = "0.1.0"
edition = "2021"
publish = false

[dependencies]
uncad-model = "=0.11.0"
serde = { version = "=1.0.229", features = ["derive"] }
