[package]
name = "gestures"
version = "0.1.0"
edition = "2021"
publish = false

[dependencies]
eframe = { version = "0.22", default-features = false, features = ["default_fonts", "glow"] }
egui = { version = "0.22", default-features = false }
lazy_static = "1.4"
