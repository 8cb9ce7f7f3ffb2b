[package]
name = "gdpr_consent"
version = "0.4.0"
edition = "2021"
publish = false

[dependencies]
base64 = "=0.13.1"
bit-set = "=0.5.3"
bit-vec = "=0.6.3"
chrono = { version = "=0.4.45", default-features = false, features = ["std", "serde"] }
serde = { version = "=1.0.229", features = ["derive"] }
serde_json = "=1.0.154"

[dev-dependencies]
bitstream-io = "=4.10.0"
