[package]
name = "kelaunch"
version = "0.1.0"
edition = "2021"
publish = false

[dependencies]
crossterm = "*"
notify-rust = "*"
ratatui = "*"
walkdir = "*"
