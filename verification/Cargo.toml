[package]
name = "hay"
version = "0.1.0"
edition = "2021"
publish = false

[dependencies]
rand = "0.8"
regex = "1"
unicode-normalization = "0.1"
clap = { version = "4", features = ["derive"] }
