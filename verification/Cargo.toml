[package]
name = "librarian"
version = "0.1.0"
edition = "2021"
publish = false

[dependencies]
chrono = "=0.4.45"
iced = { version = "=0.14.0", default-features = false, features = ["tiny-skia", "x11", "image", "tokio", "advanced"] }
notify-debouncer-mini = "=0.7.0"
tokio = { version = "=1.54.1", features = ["io-util", "process", "rt", "time"] }
windows = { version = "=0.59.0", features = ["Win32_Foundation", "Win32_Graphics_Dwm", "Win32_Graphics_Gdi", "Win32_Storage_FileSystem", "Win32_System_Com", "Win32_System_Registry", "Win32_UI_Shell", "Win32_UI_Shell_Common", "Win32_UI_WindowsAndMessaging"] }
