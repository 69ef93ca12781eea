[package]
name = "gdu-diff"
version = "0.1.0"
edition = "2021"
publish = false

[dependencies]
anyhow = "1"
clap = { version = "4", features = ["derive"] }
clipboard-rs = "*"
crossterm = "*"
dirs-next = "2"
ratatui = "*"
serde_json = "1"
tempfile = "3"
tokio = { version = "1", features = ["rt-multi-thread", "macros", "fs", "io-util", "process", "time"] }
zstd = "0.13"
