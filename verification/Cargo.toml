[package]
name = "compression"
version = "0.1.0"
edition = "2021"
publish = false

[dependencies]
bitvec = "1"
clap = { version = "3", features = ["derive"] }
rand = "0.8"
