[package]
name = "matterless_view"
version = "0.1.0"
edition = "2021"
publish = false

[dependencies]
windows = { version = "*", features = ["Win32_UI_Shell", "Win32_UI_WindowsAndMessaging"] }
