[package]
name = "sahi"
version = "0.1.0"
edition = "2021"
publish = false

[dependencies]
thiserror = "=2.0.21"
rayon = "=1.12.0"
ndarray = "=0.16.1"
ort = { version = "=2.0.0-rc.10", default-features = false, features = ["std", "ndarray", "load-dynamic"] }
cudarc = { version = "=0.12.1", default-features = false, features = ["std", "driver", "nvrtc", "cuda-12060"] }
pyo3 = "=0.22.6"
numpy = "=0.22.1"
