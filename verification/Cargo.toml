[package]
name = "braid_core"
version = "0.1.0"
edition = "2021"
publish = false

[dependencies]
serde = { version = "1", features = ["derive"] }
serde_json = "1"
uuid = { version = "1", features = ["v4"] }
dissimilar = "1"
url = "2"
diamond-types = "1"
sha2 = "0.10"
chrono = "0.4"
