[package]
name = "arcanum"
version = "0.1.0"
edition = "2021"
publish = false

[dependencies]
eframe = { version = "*", default-features = false, features = ["glow", "x11", "default_fonts"] }
egui = "*"
egui_plot = "*"
serde = { version = "1", features = ["derive"] }
serde_json = "1"
