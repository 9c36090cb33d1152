[package]
name = "labrat_bridge"
version = "0.1.0"
edition = "2021"
publish = false

[dependencies]
tokio = { version = "*", features = ["rt", "sync"] }
futures-channel = "*"
labrat = "*"
reqwest = { version = "*", default-features = false }
