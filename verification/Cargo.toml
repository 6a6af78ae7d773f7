[package]
name = "kami_script_runtime_rs"
version = "0.1.0"
edition = "2021"
publish = false

[dependencies]
bytemuck = { version = "=1.25.2", features = ["derive"] }
pollster = "=0.4.0"
thiserror = "=2.0.21"
wasmi = "=1.1.0"
wasmtime = "=45.0.3"
wgpu = "=24.0.5"
winit = "=0.30.13"
