[package]
name = "battlesnake"
version = "0.1.0"
edition = "2021"
publish = false

[dependencies]
rand = "0.8"
serde = { version = "1", features = ["derive"] }
strum = { version = "0.26", features = ["derive"] }
strum_macros = "0.26"
rocket_okapi = "0.8"
