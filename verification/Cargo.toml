[package]
name = "contrast"
version = "0.1.0"
edition = "2021"
publish = false

[dependencies]
anyhow = "1"
chrono = { version = "0.4", default-features = false, features = ["std"] }
flate2 = "1"
ignore = "0.4"
notify = { version = "6", default-features = false }
env_logger = { version = "0.10", default-features = false }
eframe = { version = "0.22", default-features = false, features = ["default_fonts", "glow"] }
egui = { version = "0.22", default-features = false }
puffin = "0.16"
puffin_egui = "0.22"
