[package]
name = "sucocku"
version = "0.1.0"
edition = "2021"
publish = false

[dependencies]
arboard = { version = "3", default-features = false }
directories = "*"
macroquad = "0.4"
serde = { version = "1", features = ["derive"] }
toml = "*"
