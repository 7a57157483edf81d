[package]
name = "axiom_core"
version = "0.1.0"
edition = "2021"
publish = false

[dependencies]
uuid = { version = "=1.29.0", features = ["v4", "serde"] }
serde = { version = "=1.0.229", features = ["derive"] }
rmp-serde = "=1.3.1"
pyo3 = "=0.30.1"
