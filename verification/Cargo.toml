[package]
name = "owo_bot"
version = "0.1.0"
edition = "2021"
publish = false

[dependencies]
regex = "1"
rand = "0.8"
serenity = "0.12"
tokio = { version = "1", features = ["full"] }
crossterm = "0.28"
ratatui = "0.28"
once_cell = "1"
clearscreen = "*"
