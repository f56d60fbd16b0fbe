[package]
name = "herdr"
version = "0.1.0"
edition = "2021"
publish = false

[dependencies]
sha2 = "=0.10.9"
unicode-segmentation = "=1.13.3"
unicode-width = "=0.2.3"
serde = { version = "=1.0.229", features = ["derive"] }
serde_json = "=1.0.154"
schemars = "=1.2.3"
time = { version = "0.3", features = ["formatting"] }
