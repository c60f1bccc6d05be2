[package]
name = "rofi_obsidian"
version = "0.1.0"
edition = "2021"
publish = false

[dependencies]
anyhow = "*"
clap = { version = "*", features = ["derive"] }
open = "*"
serde = { version = "*", features = ["derive"] }
serde_json = "*"
toml = "*"
url = "*"
