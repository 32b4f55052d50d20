[package]
name = "clip_vault"
version = "0.1.0"
edition = "2021"
publish = false

[dependencies]
chrono = "0.4"
egui = "0.31"
eframe = { version = "0.31", default-features = false, features = ["default_fonts", "glow", "x11"] }
regex = "1"
serde = { version = "1", features = ["derive"] }
serde_json = "1"
dirs = "6"
arboard = "3"
global-hotkey = "0.6"
image = "0.24"
anyhow = "1"
num_cpus = "1"
open = "5"
ignore = "0.4"
windows = { version = "0.58", features = ["Win32_Foundation", "Win32_Graphics_Gdi", "Win32_UI_WindowsAndMessaging", "Win32_System_Threading"] }
