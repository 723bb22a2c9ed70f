[package]
name = "rasterize_text"
version = "0.1.0"
edition = "2021"
publish = false

[dependencies]
rusttype = "*"
image = { version = "*", default-features = false, features = ["png"] }
unicode-normalization = "*"
log = "*"
clap = { version = "*", features = ["derive"] }
env_logger = "*"
chrono = "*"
color-eyre = "*"
thiserror = "*"
