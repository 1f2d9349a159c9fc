[package]
name = "route_provider"
version = "0.1.0"
edition = "2021"
publish = false

[dependencies]
actix-web = "4"
clap = "4"
env_logger = "0.11"
reqwest = { version = "0.12", features = ["multipart"] }
serde = "1"
serde_derive = "1"
serde_json = "1"
toml = "0.8"
