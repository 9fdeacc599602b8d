[package]
name = "delta_inference"
version = "0.1.0"
edition = "2021"
publish = false

[dependencies]
anyhow = "1"
numpy = "0.22"
pyo3 = "0.22"
rayon = "1"
serde = { version = "1", features = ["derive"] }
serde_json = "1"
thiserror = "1"
