[package]
name = "hex_viewer"
version = "0.1.0"
edition = "2021"
publish = false

[dependencies]
eframe = { version = "0.27", default-features = false, features = ["glow"] }
egui_extras = { version = "0.27", default-features = false }
env_logger = { version = "0.10", default-features = false }
