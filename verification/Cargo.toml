[package]
name = "qr_tools"
version = "0.1.0"
edition = "2021"

[dependencies]
reed-solomon = "0.2"
image = { version = "0.24", default-features = false, features = ["png"] }
rand = "0.8"
serde = { version = "1", features = ["derive"] }
serde_json = "1"
