[package]
name = "luxembourg-rs"
version = "0.1.0"
edition = "2021"
publish = false

[dependencies]
priority-queue = "1"
egui = "0.25"
eframe = { version = "0.25", default-features = false, features = ["default_fonts", "glow"] }
egui-toast = "0.11"
enum-iterator = "1"
roxmltree = "0.19"
once_cell = "1"
log = "0.4"
env_logger = "0.10"
dotenv = "0.15"
tokio = { version = "1", features = ["rt", "rt-multi-thread"] }
