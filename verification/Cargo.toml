[package]
name = "podcaster"
version = "0.1.0"
edition = "2021"
publish = false

[dependencies]
url = "2"
roxmltree = "*"
ureq = "2"
serde = { version = "*", features = ["derive"] }
serde_json = "*"
toml = "*"
indicatif = "*"
colored = "*"
dirs = "*"
pico-args = "*"
