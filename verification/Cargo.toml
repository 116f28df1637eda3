[package]
name = "top_helper"
version = "0.1.0"
edition = "2021"
publish = false

[dependencies]
anyhow = "1"
clap = { version = "4", features = ["derive"] }
procfs = "0.16"
sysinfo = "0.30"
tabled = "0.15"
terminal_size = "*"
tokio = { version = "1", features = ["macros", "rt-multi-thread"] }
