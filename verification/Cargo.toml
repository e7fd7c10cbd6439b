[package]
name = "printspots"
version = "0.1.0"
edition = "2021"
publish = false

[dependencies]
clap = { version = "*", features = ["derive"] }
image = "*"
threemf = "*"
serde = { version = "*", features = ["derive"] }
serde_json = "*"
dirs = "*"
dialoguer = "*"
base64 = "*"
