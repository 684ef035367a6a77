[package]
name = "rusty_santa"
version = "0.1.0"
edition = "2021"
publish = false

[dependencies]
rand = "0.8"
colored = "*"
env_logger = "*"
rprompt = "*"
