[package]
name = "boardwatch"
version = "0.1.0"
edition = "2021"
publish = false

[dependencies]
image = { version = "0.25", default-features = false }
tracing = "0.1"
xcap = { version = "*", default-features = false }
