[package]
name = "cull"
version = "0.1.0"
edition = "2021"
publish = false

[dependencies]
anyhow = "1"
bytemuck = { version = "1", features = ["derive"] }
chrono = "0.4"
clap = { version = "4", features = ["derive"] }
crossbeam-channel = "0.5"
fast_image_resize = "*"
glyphon = "*"
kamadak-exif = "*"
pollster = "*"
serde = { version = "1", features = ["derive"] }
serde_json = "1"
trash = "*"
wgpu = "*"
winit = "0.30"
zune-jpeg = "*"
