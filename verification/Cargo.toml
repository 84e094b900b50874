[package]
name = "tag_server"
version = "0.1.0"
edition = "2021"
publish = false

[dependencies]
rand = "*"
actix = "*"
actix-web = "*"
actix-web-actors = "*"
env_logger = "*"
serde = { version = "*", features = ["derive"] }
serde_json = "*"
geo = "*"
