[package]
name = "rustyalias"
version = "0.1.0"
edition = "2021"
publish = false

[dependencies]
log = "0.4"
env_logger = "0.11"
toml = "0.8"
