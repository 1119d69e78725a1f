[package]
name = "virtual_cpu"
version = "0.1.0"
edition = "2021"
publish = false

[dependencies]
rdev = "0.5"
windows = { version = "*", features = ["Win32_UI_Input_KeyboardAndMouse"] }
