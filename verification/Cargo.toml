[package]
name = "ghdbscan"
version = "0.1.0"
edition = "2021"
publish = false

[dependencies]
ndarray = "=0.16.1"
kiddo = "=4.2.1"
rayon = "=1.12.0"
ordered-float = "=4.6.0"
rand = "=0.8.8"
nalgebra = "=0.32.6"
serde = { version = "=1.0.229", features = ["derive"] }
thiserror = "=1.0.69"
bytemuck = { version = "=1.25.2", features = ["derive"] }
wgpu = { version = "=0.19.4", default-features = false, features = ["wgsl"] }
futures-intrusive = "=0.5.0"
pyo3 = "=0.22.6"
numpy = "=0.22.1"
candle-core = "=0.9.2"
candle-nn = "=0.9.2"

[dev-dependencies]
approx = "=0.5.1"
pollster = "=0.3.0"
