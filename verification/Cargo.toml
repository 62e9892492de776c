[package]
name = "voxxy"
version = "0.1.0"
edition = "2021"
publish = false

[dependencies]
anyhow = "=1.0.104"
cpal = "=0.18.2"
crossbeam = "=0.8.5"
eframe = { version = "=0.37.0", default-features = false, features = ["default_fonts", "glow", "x11"] }
egui = { version = "=0.37.0", default-features = false }
egui_plot = "=0.38.0"
heapless = "=0.9.3"
nalgebra = "=0.35.0"
rubato = "=3.0.0"
tracing = "=0.1.44"
tracing-subscriber = "=0.3.23"
