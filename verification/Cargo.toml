[package]
name = "capfill"
version = "0.1.0"
edition = "2021"
publish = false

[dependencies]
eframe = { version = "=0.22.0", default-features = false, features = ["glow", "default_fonts"] }
egui = "=0.22.0"
onig = { version = "=6.5.3", default-features = false }
