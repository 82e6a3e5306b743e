[package]
name = "convfmt"
version = "0.1.0"
edition = "2021"
publish = false

[dependencies]
serde = { version = "=1.0.229", features = ["derive"] }
serde_json = { version = "=1.0.151", features = ["float_roundtrip"] }
anyhow = "=1.0.104"
clap = { version = "=4.6.7", features = ["derive"] }
bson = { version = "=3.1.0", features = ["serde"] }
hocon = "=0.9.0"
json5 = "=1.3.1"
linked-hash-map = "=0.5.6"
ron = "=0.12.2"
serde-hjson = "=1.1.0"
serde_yaml = "=0.9.34"
toml = "=1.1.6"
java-properties = "=2.0.0"
