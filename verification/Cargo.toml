[package]
name = "niri_tiled"
version = "0.1.0"
edition = "2021"
publish = false

[dependencies]
anyhow = "1"
bytemuck = { version = "1", features = ["derive"] }
drm = "0.14"
drm-ffi = "0.9"
niri-ipc = "*"
smithay = { version = "0.7", default-features = false, features = ["backend_drm", "backend_gbm", "desktop", "wayland_frontend"] }
tracing = "0.1"
tracy-client = { version = "0.18", default-features = false }
