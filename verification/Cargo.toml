[package]
name = "templater"
version = "0.1.0"
edition = "2021"
publish = false

[dependencies]
anyhow = "=1.0.104"
base64 = "=0.23.1"
clap = { version = "=4.6.7", features = ["derive"] }
clipboard-anywhere = "=0.2.3"
dialoguer = { version = "=0.12.0", features = ["fuzzy-select"] }
dirs = "=7.0.0"
home = "=0.5.12"
wsl = "=0.1.0"
