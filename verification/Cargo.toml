[package]
name = "geo_ring_viewer"
version = "0.1.0"
edition = "2021"
publish = false

[dependencies]
eframe = { version = "0.31", default-features = false, features = ["default_fonts", "glow", "x11"] }
egui = "0.31"
egui_plot = "0.31"
rfd = { version = "0.15", default-features = false, features = ["xdg-portal", "tokio"] }
