[package]
name = "tosh"
version = "0.1.0"
edition = "2021"
publish = false

[dependencies]
crossterm = "0.22"
dirs = "4"
dirs-next = "2"
logos = "0.12"
nix = "0.23"
serde = { version = "1", features = ["derive"] }
serde_json = "1"
signal-hook = "0.3"
toml = "0.5"
