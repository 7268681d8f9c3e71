[package]
name = "exomizer"
version = "0.1.0"
edition = "2021"
publish = false

[dependencies]
thiserror = { version = "=2.0.21", default-features = false }
