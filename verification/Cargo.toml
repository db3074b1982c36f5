[package]
name = "summon"
version = "0.1.0"
edition = "2021"
publish = false

[dependencies]
num-traits = "0.2"
serde = { version = "1", features = ["derive"] }
serde_json = "1"
serde_qs = "1"
strum = "0.28"
strum_macros = "0.28"
url = "2"
