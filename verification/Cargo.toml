[package]
name = "lighter"
version = "0.1.0"
edition = "2021"
publish = false

[dependencies]
slotmap = "1"
taffy = "*"
thiserror = "2"
windows-result = "*"
windows = { version = "*", features = ["Win32_Foundation", "Win32_UI_WindowsAndMessaging", "Win32_System_LibraryLoader", "Win32_Graphics_Gdi", "Win32_UI_HiDpi", "Win32_Graphics_Dwm", "Win32_System_Threading"] }
