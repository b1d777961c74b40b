[package]
name = "namestats"
version = "0.1.0"
edition = "2021"
publish = false

[dependencies]
egui = "=0.27.2"
ron = "=0.8.1"
serde = { version = "=1.0.229", features = ["derive"] }
