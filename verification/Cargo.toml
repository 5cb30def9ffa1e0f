[package]
name = "quad_storage"
version = "0.1.0"
edition = "2021"
publish = false

[dependencies]
lazy_static = "1"

[dev-dependencies]
nanoserde = "*"
