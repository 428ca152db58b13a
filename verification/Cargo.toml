[package]
name = "novafractal"
version = "0.1.0"
edition = "2021"
publish = false

[dependencies]
rayon = "=1.12.0"
bytemuck = { version = "=1.25.2", features = ["derive", "extern_crate_alloc"] }
wide = "=0.7.33"
pollster = "=0.3.0"
wgpu = { version = "=25.0.2", default-features = false, features = ["wgsl"] }
egui = { version = "=0.32.3", default-features = false, features = ["default_fonts"] }
eframe = { version = "=0.32.3", default-features = false, features = ["default_fonts", "glow", "x11"] }
cudarc = { version = "=0.12.1", default-features = false, features = ["std", "driver", "nvrtc", "cuda-12050"] }
