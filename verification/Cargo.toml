[package]
name = "minesweeper"
version = "0.1.0"
edition = "2021"
publish = false

[dependencies]
rand = "=0.10.3"
ratatui = { version = "=0.30.2", default-features = false, features = ["crossterm"] }
bevy = { version = "=0.17.3", default-features = false, features = ["bevy_color"] }
