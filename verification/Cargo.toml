[package]
name = "sweep_line"
version = "0.1.0"
edition = "2021"
publish = false

[dependencies]
polars = { version = "*", default-features = false, features = ["dtype-datetime", "dtype-i8", "dtype-i16", "dtype-u8", "dtype-u16"] }
pyo3-polars = { version = "*", features = ["derive"] }
serde = { version = "*", features = ["derive"] }
