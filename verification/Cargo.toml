[package]
name = "rsvp-reader"
version = "0.1.0"
edition = "2021"
publish = false

[dependencies]
dirs = "*"
eframe = { version = "0.33", default-features = false, features = ["default_fonts", "glow", "x11"] }
image = { version = "0.25", default-features = false, features = ["png"] }
lopdf = "*"
rfd = "*"
serde = { version = "1", features = ["derive"] }
serde_json = "1"
