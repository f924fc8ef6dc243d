[package]
name = "tetrbot"
version = "0.1.0"
edition = "2021"
publish = false

[dependencies]
minifb = { version = "0.25", default-features = false }
winapi = { version = "=0.3.9", features = ["winuser", "windef", "minwindef", "libloaderapi", "tlhelp32"] }
