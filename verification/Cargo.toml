[package]
name = "rust_playground"
version = "0.1.0"
edition = "2021"
publish = false

[dependencies]
regex = "1"
lazy_static = "1"
interoptopus = "0.14"
windows-service = "0.5"

[dependencies.windows]
version = "0.44"
features = [
    "Win32_Foundation",
    "Win32_Security",
    "Win32_Storage_FileSystem",
    "Win32_Devices_DeviceAndDriverInstallation",
    "Win32_Devices_Properties",
    "Win32_System_Threading",
    "Win32_UI_WindowsAndMessaging",
    "Win32_Graphics_Gdi",
    "Devices_Enumeration",
    "Foundation",
]
