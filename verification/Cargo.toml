[package]
name = "snapple"
version = "1.0.1"
edition = "2021"
publish = false

[dependencies]
anyhow = "1"
chrono = { version = "0.4", default-features = false, features = ["clock", "std"] }
global-hotkey = "0.6"
muda = { version = "0.15", default-features = false }
rayon = "1"
serde = { version = "1", features = ["derive"] }
sysinfo = { version = "0.33", default-features = false, features = ["system"] }
toml = "0.8"
tray-icon = { version = "0.19", default-features = false }
windows = { version = "0.61", features = [
    "Graphics_Capture",
    "Graphics_DirectX_Direct3D11",
    "Win32_Foundation",
    "Win32_Graphics_Direct3D",
    "Win32_Graphics_Direct3D11",
    "Win32_Graphics_Dxgi_Common",
    "Win32_Graphics_Gdi",
    "Win32_Media_Audio",
    "Win32_Security",
    "Win32_Storage_FileSystem",
    "Win32_System_Com_StructuredStorage",
    "Win32_System_Pipes",
    "Win32_System_Threading",
    "Win32_System_Variant",
    "Win32_System_WinRT_Direct3D11",
    "Win32_System_WinRT_Graphics_Capture",
    "Win32_UI_WindowsAndMessaging",
] }
winreg = "0.52"
