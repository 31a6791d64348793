[package]
name = "earthquake_oracle"
version = "0.1.0"
edition = "2021"
publish = false

[dependencies]
serde_json = { version = "1", features = ["arbitrary_precision"] }
anyhow = "1"
seda-sdk-rs = "*"
