[package]
name = "math_scopes"
version = "0.1.0"
edition = "2021"
publish = false

[dependencies]
katex = "=0.4.6"
clap = { version = "=4.6.7", features = ["derive"] }
comrak = { version = "=0.54.0", default-features = false, features = ["syntect-fancy"] }
headless_chrome = "=0.9.0"
rand = "=0.8.8"
