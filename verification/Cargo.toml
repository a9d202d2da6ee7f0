[package]
name = "lever-runner-carapace"
version = "0.1.0"
edition = "2021"
publish = false

[dependencies]
blake2 = "0.10"
serde = { version = "1", features = ["derive"] }
serde_yaml = "0.9"
