[package]
name = "pg"
version = "0.1.0"
edition = "2021"
publish = false

[dependencies]
polars = { version = "=0.55.2", default-features = false, features = ["dtype-datetime"] }
polars-arrow = { version = "=0.55.2", default-features = false }
pyo3-polars = { version = "=0.28.0", features = ["derive"] }
