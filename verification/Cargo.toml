[package]
name = "smb_server"
version = "0.1.0"
edition = "2021"
publish = false

[dependencies]
getrandom = "0.3"
tokio = { version = "1", features = ["rt", "sync"] }
tracing = "0.1"
