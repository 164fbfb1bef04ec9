[package]
name = "fomod_oxide"
version = "0.1.0"
edition = "2021"
publish = false

[dependencies]
sha2 = "0.10"
base64 = "0.22"
serde = { version = "1", features = ["derive"] }
quick-xml = { version = "0.36", features = ["serialize"] }
serde_json = "1"
ron = "0.8"
ronix = "*"
clap = { version = "4", features = ["derive"] }
thiserror = "1"
