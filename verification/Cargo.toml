[package]
name = "piet"
version = "0.1.0"
edition = "2021"
publish = false

[dependencies]
num = "0.4"
itertools = "0.12"
ndarray = "0.15"
image = { version = "0.24", default-features = false, features = ["png"] }
clap = { version = "4.4", features = ["derive"] }
