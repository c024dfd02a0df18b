[package]
name = "tiny"
version = "0.1.0"
edition = "2021"
publish = false

[dependencies]
argh = "*"
image = { version = "*", default-features = false, features = ["png"] }
