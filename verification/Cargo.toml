[package]
name = "windows-magnifier"
version = "0.1.0"
edition = "2021"
publish = false

[dependencies]
ref_thread_local = "0.1"
serde = { version = "1", features = ["derive"] }
serde_yaml = "0.9"
windows = { version = "0.48", features = ["Win32_Foundation", "Win32_Graphics_Gdi", "Win32_System_Console", "Win32_System_LibraryLoader", "Win32_System_Threading", "Win32_UI_Input_KeyboardAndMouse", "Win32_UI_Magnification", "Win32_UI_WindowsAndMessaging"] }
