[package]
name = "subdiv_kernels"
version = "0.1.0"
edition = "2021"
publish = false

[dependencies]
bytemuck = { version = "1", features = ["derive"] }
pollster = "0.4"
rustc-hash = "2"
serde = { version = "1", features = ["derive"] }
smallvec = "1"
thiserror = "2"
wgpu = "*"
