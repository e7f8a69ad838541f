[package]
name = "lineme"
version = "0.1.0"
edition = "2021"
publish = false

[dependencies]
intervaltree = "=0.2.7"
analyzeme = "=12.0.3"
iced = { version = "=0.14.0", default-features = false, features = ["canvas", "advanced", "tiny-skia", "x11", "thread-pool"] }
iced_aw = { version = "=0.14.1", default-features = false, features = ["tab_bar"] }
rfd = "=0.15.4"
winreg = "=0.56.0"
