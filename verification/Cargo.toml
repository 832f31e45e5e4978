[package]
name = "cutty"
version = "0.1.0"
edition = "2021"
publish = false

[dependencies]
blake3 = "1"
cosmic-text = "*"
dirs = "*"
ffmpeg-sidecar = "*"
ffmpeg-the-third = "*"
libc = "0.2"
serde = { version = "1", features = ["derive"] }
serde_json = "1"
thiserror = "*"
turbojpeg = "*"
