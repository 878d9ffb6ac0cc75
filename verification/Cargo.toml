[package]
name = "rhomeaccount_core"
version = "0.1.0"
edition = "2021"
publish = false

[dependencies]
chrono = { version = "0.4", default-features = false, features = ["clock", "std"] }
serde = { version = "1", features = ["derive"] }
serde_json = "1"
dirs = "6"
eframe = { version = "0.32", default-features = false, features = ["default_fonts", "glow", "x11", "wayland"] }
egui = "0.32"
egui_extras = "0.32"
egui_plot = "0.33"
rfd = "0.15"
