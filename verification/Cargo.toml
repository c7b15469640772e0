[package]
name = "hardbot"
version = "0.1.0"
edition = "2021"
publish = false

[dependencies]
anyhow = "1"
dirs = "*"
rand = "0.8"
serde = { version = "1", features = ["derive"] }
signal-hook = "0.3"
toml = "*"
twitch_chat_wrapper = "*"
