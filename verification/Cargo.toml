[package]
name = "speaker_studio"
version = "0.1.1"
edition = "2021"
publish = false

[dependencies]
base64 = "=0.22.1"
chrono = "=0.4.45"
serde = { version = "=1.0.229", features = ["derive"] }
serde_json = "=1.0.154"
uuid = { version = "=1.29.0", features = ["v4"] }
getrandom = "=0.4.3"
eframe = { version = "=0.31.1", default-features = false, features = ["default_fonts", "glow", "x11"] }
arboard = "=3.7.0"
rfd = { version = "=0.15.4", default-features = false, features = ["gtk3"] }
image = { version = "=0.25.10", default-features = false, features = ["png", "jpeg", "bmp"] }
