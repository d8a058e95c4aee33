[package]
name = "mc_mot"
version = "0.1.0"
edition = "2021"
publish = false

[dependencies]
anyhow = "=1.0.104"
eframe = { version = "=0.37.0", default-features = false, features = ["default_fonts", "glow", "x11"] }
image = { version = "=0.25.10", default-features = false, features = ["png", "jpeg", "bmp", "gif", "webp", "tiff", "ico", "pnm"] }
nalgebra = "=0.35.0"
opencv = { version = "=0.101.1", default-features = false, features = ["imgproc", "dnn", "features", "geometry"] }
rfd = { version = "=0.16.1", default-features = false, features = ["xdg-portal", "tokio"] }
