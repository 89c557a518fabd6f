[package]
name = "music_library"
version = "0.1.0"
edition = "2021"
publish = false

[dependencies]
httpdate = "1"
base64 = "0.22"
ring = "0.17"
url = "2"
uuid = { version = "1", features = ["v4"] }
serde = { version = "1", features = ["derive"] }
serde_json = "1"
