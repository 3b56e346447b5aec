[package]
name = "kangaroo"
version = "0.1.0"
edition = "2021"
publish = false

[dependencies]
anyhow = "1"
bytemuck = { version = "1", features = ["derive"] }
clap = { version = "4", features = ["derive"] }
dashmap = "6"
hex = "0.4"
indicatif = "0.17"
k256 = "0.13"
pollster = "0.4"
rayon = "1"
serde = { version = "1", features = ["derive"] }
serde_json = "1"
tracing = "0.1"
wgpu = "24"
