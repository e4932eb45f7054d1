[package]
name = "nvram_editor"
version = "0.1.0"
edition = "2021"
publish = false

[dependencies]
encoding_rs = "0.8"
eframe = { version = "0.32", default-features = false, features = ["default_fonts", "glow", "x11"] }
image = { version = "0.25", default-features = false, features = ["ico", "png", "bmp"] }
raw-window-handle = "0.6"
rfd = { version = "0.15", default-features = false, features = ["xdg-portal", "async-std"] }
windows-sys = { version = "0.59", features = ["Win32_Foundation", "Win32_System_Registry", "Win32_System_Threading", "Win32_UI_Shell", "Win32_UI_WindowsAndMessaging"] }

[dev-dependencies]
regex = "1"
