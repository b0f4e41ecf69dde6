[package]
name = "ratelimitly"
version = "0.1.0"
edition = "2021"
publish = false

[dependencies]
aes-gcm = "0.10"
blake2 = "0.10"
bytes = "1"
hickory-resolver = "*"
rand = "*"
socket2 = "*"
thiserror = "2"
tokio = { version = "1", features = ["macros", "net", "rt", "sync", "time"] }
tracing = "0.1"
uuid = { version = "1", features = ["v4"] }
windows-sys = { version = "*", features = ["Win32_Networking_WinSock"] }
