[package]
name = "vecview"
version = "0.2.0"
edition = "2021"
publish = false

[dependencies]
anyhow = "1"
base64 = "0.22"
bytemuck = { version = "1", features = ["derive"] }
clap = { version = "4", features = ["derive"] }
crossterm = "0.28"
ctrlc = "3"
flate2 = "1"
icy_sixel = "*"
image = { version = "0.25", default-features = false, features = ["png", "jpeg", "gif", "webp"] }
lyon = "1"
memmap2 = "0.9"
nix = { version = "0.29", features = ["ioctl", "poll"] }
notify-debouncer-full = "0.5"
pdfium-render = "0.8"
pollster = "0.4"
regex = "1"
toml = "0.8"
usvg = "*"
wgpu = { version = "29", default-features = false, features = ["std", "vulkan", "gles", "wgsl"] }
