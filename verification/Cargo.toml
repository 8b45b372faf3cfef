[package]
name = "github_graph"
version = "0.1.0"
edition = "2021"
publish = false

[dependencies]
chrono = { version = "=0.4.45", features = ["serde"] }
serde = { version = "=1.0.229", features = ["derive"] }
serde_json = "=1.0.154"
anyhow = "=1.0.104"
tokio = { version = "=1.54.1", features = ["macros", "rt-multi-thread"] }
eframe = { version = "=0.29.1", default-features = false, features = ["default_fonts", "glow"] }
# Turns on winit's X11 backend through egui-winit; eframe's own `x11` feature would also
# pull the wgpu renderer into the lock file, which the plots do not use.
egui-winit = { version = "=0.29.1", default-features = false, features = ["x11"] }
egui_plot = "=0.29.0"
futures-util = "=0.3.34"
octocrab = { version = "=0.40.0", features = ["stream"] }
