[package]
name = "cargo-wrap-comments"
version = "0.1.0"
edition = "2021"
publish = false

[dependencies]
clap = { version = "4", features = ["derive"] }
glob = "0.3"
toml = "0.8"
