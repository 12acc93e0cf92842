[package]
name = "bp_photos"
version = "0.1.0"
edition = "2021"
publish = false

[dependencies]
kamadak-exif = "0.6.1"
zip = { version = "*", default-features = false, features = ["deflate"] }
image = { version = "0.25", default-features = false, features = ["jpeg", "png", "tiff", "webp"] }
zune-jpeg = "*"
zune-core = "*"
bytemuck = "1"
half = "2"
rawler = "*"
dirs = "*"
pollster = "*"
wgpu = { version = "30", default-features = false, features = ["std", "wgsl", "vulkan"] }
eframe = { version = "0.37", default-features = false, features = ["wgpu_no_default_features", "default_fonts", "x11"] }
arboard = { version = "*", default-features = false, features = ["image-data"] }
ureq = { version = "3", default-features = false, features = ["rustls"] }
