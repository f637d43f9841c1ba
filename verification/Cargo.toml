[package]
name = "bigbrother"
version = "0.1.0"
edition = "2021"
publish = false

[dependencies]
anyhow = "1"
bstr = "1"
ignore = "0.4"
ignore-files = "3"
notify = "*"
notify-debouncer-full = "*"
tokei = { version = "*", default-features = false }
tokio = { version = "1", features = ["fs", "macros", "rt", "rt-multi-thread", "sync", "time"] }
