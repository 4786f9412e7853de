[package]
name = "fastmm"
version = "0.1.0"
edition = "2021"
publish = false

[dependencies]
pulldown-cmark = { version = "=0.13.6", default-features = false }
serde = { version = "=1.0.229", features = ["derive"] }
once_cell = "=1.21.4"
typst = "=0.13.1"
typst-assets = { version = "=0.13.1", features = ["fonts"] }
typst-svg = "=0.13.1"
