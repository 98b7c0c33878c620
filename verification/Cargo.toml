[package]
name = "lian_world"
version = "0.1.0"
edition = "2021"
publish = false

[dependencies]
rand = "0.8"
rayon = "1"
serde = { version = "1", features = ["derive"] }
serde_json = "1"
image = { version = "0.25", default-features = false, features = ["png"] }
egui = { version = "0.27", default-features = false, features = ["default_fonts"] }
glow = "0.13"
