[package]
name = "morpion_solitaire"
version = "0.1.0"
edition = "2021"
publish = false

[dependencies]
base64 = "=0.22.1"
miniz_oxide = "=0.8.9"
serde = { version = "=1.0.229", features = ["derive"] }
serde_json = "=1.0.154"
resvg = "=0.49.0"
rustc-hash = "=2.1.3"
rand = "0.10"
