[package]
name = "battleship"
version = "0.1.0"
edition = "2021"
publish = false

[dependencies]
rand = "*"
serde = { version = "*", features = ["derive"] }
serde_json = "*"
websocket = { version = "*", default-features = false, features = ["sync"] }
getopts = "*"
regex = "*"
env_logger = "*"
