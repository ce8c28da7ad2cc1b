[package]
name = "mc-scan"
version = "0.1.0"
edition = "2021"
publish = false

[dependencies]
anyhow = "1"
clap = { version = "4", features = ["derive"] }
libc = "0.2"
socket2 = { version = "0.6", features = ["all"] }
tokio = { version = "1", features = ["full"] }
