[package]
name = "html2apk"
version = "0.1.0"
edition = "2021"
publish = false

[dependencies]
anyhow = "1"
apksig = "*"
base64 = "0.22"
dirs = "5"
image = { version = "0.25", default-features = false, features = ["png", "jpeg", "webp"] }
prost = "0.13"
rand = "0.8"
rcgen = "0.13"
rsa = { version = "0.9", features = ["sha2"] }
rustls-pki-types = "1"
serde = { version = "1", features = ["derive"] }
serde_json = "1"
walkdir = "2"
zip = { version = "0.6", default-features = false, features = ["deflate"] }

[dev-dependencies]
tempfile = "3"
