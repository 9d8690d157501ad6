[package]
name = "ailater_im"
version = "0.1.0"
edition = "2021"
publish = false

[dependencies]
serde = { version = "1", features = ["derive"] }
toml = "0.8"
reqwest = { version = "0.12", default-features = false, features = ["json"] }
tokio = { version = "1", features = ["rt-multi-thread"] }
log = "0.4"
env_logger = "0.11"
parking_lot = "0.12"
