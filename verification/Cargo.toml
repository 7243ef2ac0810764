[package]
name = "rnet"
version = "0.1.0"
edition = "2021"
publish = false

[dependencies]
bincode = "1.3"
serde = { version = "1", features = ["derive"] }
tokio = { version = "1", features = ["full"] }
threadpool = "1.8"
eframe = { version = "0.31", default-features = false, features = ["default_fonts", "glow", "x11"] }
egui_plot = "0.31"
