[package]
name = "game_picker"
version = "0.1.0"
edition = "2021"
publish = false

[dependencies]
indicatif = "*"
itertools = "*"
