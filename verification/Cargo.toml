[package]
name = "farm_solitaire"
version = "0.1.0"
edition = "2021"
publish = false

[dependencies]
rand = "0.9"
serde = { version = "1", features = ["derive"] }

[dev-dependencies]
serde_json = "1"
