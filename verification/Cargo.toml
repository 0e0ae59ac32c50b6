[package]
name = "recoded"
version = "0.1.0"
edition = "2021"
publish = false

[dependencies]
egui-snarl = { version = "=0.2.1", features = ["serde"] }
egui = "0.25"
eframe = { version = "0.25", default-features = false, features = ["glow", "persistence"] }
egui_extras = "0.25"
piet = "=0.6.2"
piet-svg = "=0.6.2"
serde = { version = "=1.0.229", features = ["derive"] }
serde_json = "=1.0.154"
