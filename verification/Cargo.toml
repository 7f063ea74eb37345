[package]
name = "loadpeek"
version = "0.1.0"
edition = "2021"
publish = false

[dependencies]
eframe = { version = "0.36", default-features = false, features = ["accesskit", "default_fonts", "glow", "x11"] }
libc = "0.2"
serde = { version = "1", features = ["derive"] }
serde_json = "1"
