[package]
name = "kvstore"
version = "0.1.0"
edition = "2021"
publish = false

[dependencies]
regex = "1"
actix-web = "4"
env_logger = "0.11"
