[package]
name = "mine_deduction"
version = "0.1.0"
edition = "2021"
publish = false

[dependencies]
highs = "*"
itertools = "*"
image = { version = "*", default-features = false, features = ["jpeg"] }
image-compare = "*"
mouse-rs = "*"
win-screenshot = "*"
