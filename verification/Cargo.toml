[package]
name = "minecraft_dungeons_ai"
version = "0.1.0"
edition = "2021"
publish = false

[dependencies]
rand = "0.8"
ndarray = { version = "0.15", default-features = false, features = ["std"] }
serde = { version = "1", features = ["derive"] }
serde_yaml = "0.9"
clap = { version = "4", default-features = false, features = ["std", "derive", "help", "usage"] }
env_logger = { version = "0.11", default-features = false }
rayon = "1"
candle-core = { version = "0.8", default-features = false }
candle-nn = { version = "0.8", default-features = false }
eframe = { version = "0.29", default-features = false, features = ["glow", "x11", "default_fonts"] }
egui = { version = "0.29", default-features = false, features = ["default_fonts"] }
