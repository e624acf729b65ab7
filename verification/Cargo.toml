[package]
name = "timehistory"
version = "0.1.0"
edition = "2021"
publish = false

[dependencies]
bash-builtins = "=0.4.1"
chrono = { version = "=0.4.45", features = ["serde"] }
libc = "=0.2.191"
once_cell = "=1.21.4"
plthook = "=0.3.0"
proc-macro2 = "=1.0.107"
quote = "=1.0.47"
serde = { version = "=1.0.229", features = ["derive"] }
serde_json = "=1.0.154"
unicode-width = "=0.1.14"
