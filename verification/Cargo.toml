[package]
name = "hfthot_lab_core"
version = "0.1.0"
edition = "2021"
publish = false

[dependencies]
log = "0.4"
nalgebra = "0.33"
numpy = "0.22"
pyo3 = "0.22"
rand = "0.8"
rand_distr = "0.4"
rayon = "1"
serde = { version = "1", features = ["derive"] }
thiserror = "1"
