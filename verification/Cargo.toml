[package]
name = "skribo"
version = "0.1.0"
edition = "2021"
publish = false

[dependencies]
unicode-normalization = "=0.1.26"
harfbuzz = { version = "=0.8.0", default-features = false, features = ["bundled", "std"] }
harfbuzz-sys = { version = "=0.8.0", default-features = false, features = ["bundled"] }
pathfinder_geometry = "=0.5.1"
font-kit = { version = "=0.14.3", default-features = false }
log = "=0.4.35"
