[package]
name = "gwr_models"
version = "0.1.0"
edition = "2021"
publish = false

[dependencies]
serde = { version = "1", features = ["derive"] }
rand = "0.9"
gwr-engine = "*"
gwr-components = "*"
gwr-track = "*"
gwr-model-builder = "*"
