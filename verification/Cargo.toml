[package]
name = "vtt"
version = "0.1.0"
edition = "2021"
publish = false

[dependencies]
url = "2"
serde = { version = "1", features = ["derive"] }
serde_json = "1"
tokio = { version = "1", features = ["full"] }
tokio-tungstenite = "0.17"
futures-util = { version = "0.3", features = ["sink"] }
crossbeam-channel = "0.5"
clap = "2.33"
dirs = "4"
sled = "0.34"
async-compat = "0.2"
bevy = { version = "0.6", default-features = false, features = ["render"] }
bevy_egui = { version = "0.10", default-features = false }
crevice = "0.8"
bytemuck = "1"
wgpu = "0.12"
