[package]
name = "qce_agent_host"
version = "0.1.0"
edition = "2021"
publish = false

[dependencies]
twox-hash = "*"
qapi = { version = "*", features = ["qmp"] }
inotify = "*"
libc = "*"
