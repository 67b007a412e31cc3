[package]
name = "imghex_core"
version = "0.1.0"
edition = "2021"
publish = false

[dependencies]
eframe = { version = "0.29", default-features = false, features = ["default_fonts", "glow", "x11", "wayland"] }
egui = "0.29"
rfd = { version = "0.15", default-features = false, features = ["xdg-portal", "tokio"] }
