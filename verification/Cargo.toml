[package]
name = "heurisko"
version = "0.1.0"
edition = "2021"
publish = false

[dependencies]
zstd = "*"
serde = { version = "*", features = ["derive"] }
serde_json = "*"
toml = "*"
config = { version = "*", default-features = false, features = ["toml"] }
directories = "*"
clap = { version = "*", features = ["derive"] }
walkdir = "*"
rocket = "0.5"
once_cell = "*"
