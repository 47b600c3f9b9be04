[package]
name = "exif_viewer"
version = "0.1.0"
edition = "2021"
publish = false

[dependencies]
kamadak-exif = "*"
flate2 = "*"
serde = { version = "*", features = ["derive"] }
