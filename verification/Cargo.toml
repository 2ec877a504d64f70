[package]
name = "torchc"
version = "0.1.0"
edition = "2021"
publish = false

[dependencies]
async-std = { version = "*", features = ["attributes"] }
async-walkdir = "*"
colored = "*"
pathdiff = "*"
