[package]
name = "ising"
version = "0.1.0"
edition = "2021"
publish = false

[dependencies]
rand = "0.10.3"
eframe = { version = "0.37.0", default-features = false, features = ["glow", "x11", "default_fonts"] }
egui_plot = "0.38.0"
