[package]
name = "rustky"
version = "0.1.0"
edition = "2021"
publish = false

[dependencies]
skia-rs = { version = "=0.4.0", features = ["text"] }
skia-rs-canvas = "=0.4.0"
smithay-client-toolkit = { version = "=0.20.0", default-features = false }
wayland-client = "=0.31.15"
calloop = "=0.14.5"
calloop-wayland-source = "=0.4.1"
