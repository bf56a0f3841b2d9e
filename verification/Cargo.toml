[package]
name = "jack_stack"
version = "0.1.0"
edition = "2021"
publish = false

[dependencies]
jack = "*"
rosc = "*"
clap = "*"
serde = { version = "1", features = ["derive"] }
toml = "*"
regex = "*"
