[package]
name = "pepeline"
version = "0.1.0"
edition = "2021"
publish = false

[dependencies]
zune-psd = "=0.4.0"
zune-jpeg = "=0.4.21"
image = { version = "=0.25.10", default-features = false, features = ["png", "jpeg", "bmp", "tiff"] }
fast_image_resize = "=4.2.3"
bytemuck = "=1.25.2"
ndarray = "=0.15.6"
numpy = "=0.21.0"
pyo3 = { version = "=0.21.2", features = ["extension-module"] }
filebuffer = "=0.4.0"
rand = "=0.8.8"
noise = "=0.9.0"
