[package]
name = "fighting_stick"
version = "0.1.0"
edition = "2021"
publish = false

[dependencies]
serde = { version = "1", features = ["derive"] }
serde_json = "1"
sdl2 = "0.37"
midir = "0.10"
