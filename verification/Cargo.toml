[package]
name = "goz"
version = "0.1.0"
edition = "2021"
publish = false

[dependencies]
anyhow = "=1.0.104"
clap = { version = "=4.6.7", features = ["derive"] }
libmimalloc-sys = { version = "=0.1.49", features = ["extended"] }
memchr = "=2.8.3"
mimalloc = "=0.1.52"
parking_lot = "=0.12.5"
rayon = "=1.12.0"
rustc-hash = "=2.1.3"
serde = { version = "=1.0.229", features = ["derive"] }
serde_json = "=1.0.154"
smallvec = "=1.16.4"
tokio = { version = "=1.54.1", features = ["io-util", "macros", "net", "rt-multi-thread", "signal", "sync", "time"] }
tracing = "=0.1.44"
tracing-subscriber = { version = "=0.3.23", features = ["env-filter"] }
windows-service = "=0.8.1"
windows-sys = { version = "=0.61.2", features = ["Win32_Foundation", "Win32_Security", "Win32_Security_Authorization", "Win32_Storage_FileSystem", "Win32_System_IO", "Win32_System_Ioctl", "Win32_System_Memory", "Win32_System_ProcessStatus", "Win32_System_Threading"] }
