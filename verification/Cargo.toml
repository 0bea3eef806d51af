[package]
name = "tree_walk"
version = "0.1.0"
edition = "2021"
publish = false

[dependencies]
anyhow = "=1.0.104"
bytesize = "=2.7.0"
clap = { version = "=4.6.7", features = ["derive"] }
totp-rs = "=5.7.2"
