[package]
name = "duel_game"
version = "0.1.0"
edition = "2021"
publish = false

[dependencies]
rand = "*"
clap = { version = "4", features = ["derive"] }
crossterm = "*"
env_logger = "*"
log = "*"
