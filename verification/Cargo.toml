[package]
name = "jp2gmd"
version = "0.1.0"
edition = "2021"
publish = false

[dependencies]
num-rational = "0.4"
num-traits = "0.2"
anyhow = "1"
clap = { version = "4", features = ["derive"] }
chrono = { version = "0.4", default-features = false, features = ["clock"] }
lazy_static = "1"
serde = { version = "1", features = ["derive"] }
serde_json = "1"
itertools = "0.10"
log = "0.4"
image = { version = "0.24", default-features = false, features = ["png"] }
egui = "0.23"
eframe = { version = "0.23", default-features = false, features = ["glow", "default_fonts"] }
egui-toast = "0.9"
arboard = { version = "3", default-features = false }
