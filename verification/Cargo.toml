[package]
name = "dice_odds"
version = "0.1.0"
edition = "2021"
publish = false

[dependencies]
itertools = "0.14"
num = "0.4"
