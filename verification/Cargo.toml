[package]
name = "rosu_nps"
version = "0.1.0"
edition = "2021"
publish = false

[dependencies]
pyo3 = "0.20"
reqwest = { version = "0.12", features = ["blocking"] }
rosu-map = "*"
serde = { version = "1", features = ["derive"] }
serde_json = "1"
