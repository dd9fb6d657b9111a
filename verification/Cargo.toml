[package]
name = "window_relay"
version = "0.1.0"
edition = "2021"
publish = false

[dependencies]
crossbeam-channel = "=0.5.17"
windows = { version = "=0.54.0", features = ["Win32_Foundation"] }
windows-capture = "=1.0.68"
