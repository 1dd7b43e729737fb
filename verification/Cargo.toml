[package]
name = "declimiter"
version = "0.1.0"
edition = "2021"
publish = false

[dependencies]
etherparse = "0.16"
sysinfo = "0.33"
log = "0.4"
simple_logger = "5"
tokio = { version = "1", features = ["rt-multi-thread", "macros", "time", "sync"] }
futures = "0.3"
clap = { version = "4", features = ["derive"] }
serde = { version = "1", features = ["derive"] }
serde_json = "1"
dirs = "5"
thiserror = "1"
ratatui = "0.29"
ndisapi = "*"
windows = { version = "*", features = ["Win32_Foundation", "Win32_System_Threading", "Win32_NetworkManagement_IpHelper", "Win32_Networking_WinSock", "Win32_Storage_FileSystem", "Win32_Graphics_Gdi", "Win32_UI_Shell", "Win32_UI_WindowsAndMessaging", "Win32_System_Console"] }
