[package]
name = "fuc_engine"
version = "0.1.0"
edition = "2021"
publish = false

[dependencies]
file-mode = "0.1"
rayon = "1"
clap = { version = "4", features = ["derive"] }
error-stack = "0.4"
thiserror = "1"
