[package]
name = "skylink_network"
version = "0.1.0"
edition = "2021"
publish = false

[dependencies]
petgraph = "0.6"
fastrand = "2"
base64 = "0.22"
crossbeam-channel = "0.5"
serde = { version = "1", features = ["derive"] }
serde_json = "1"
open = "5"
image = { version = "0.25", default-features = false, features = ["png", "jpeg"] }
egui = { version = "0.29", default-features = false, features = ["default_fonts"] }
