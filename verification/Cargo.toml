[package]
name = "edge_esr"
version = "0.1.0"
edition = "2021"
publish = false

[dependencies]
anyhow = "1"
flate2 = "1"
half = "2"
libm = "0.2"
ndarray = "0.16"
ndarray-npy = "0.9"
ort = { version = "=2.0.0-rc.11", default-features = false, features = ["std", "ndarray", "half", "alternative-backend"] }
ort-sys = { version = "=2.0.0-rc.11", default-features = false, features = ["disable-linking"] }
tracing = "0.1"
