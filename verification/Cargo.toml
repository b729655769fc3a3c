[package]
name = "minimal-tts"
version = "0.1.0"
edition = "2021"
publish = false

[dependencies]
anyhow = "1"
cpal = "0.15"
fancy-regex = "*"
hound = "3"
libloading = "0.8"
ort = { version = "=2.0.0-rc.10", default-features = false, features = ["std", "load-dynamic"] }
serde_json = "1"
souvlaki = "*"
unicode-segmentation = "1"
zip = { version = "2", default-features = false, features = ["deflate"] }
