[package]
name = "sushi_go"
version = "0.1.0"
edition = "2021"
publish = false

[dependencies]
rand = "0.7"
rayon = "1"
rulinalg = "0.4"
serde = { version = "1", features = ["derive"] }
serde_json = "1"
enum-map = "*"
radiant-rs = "*"
