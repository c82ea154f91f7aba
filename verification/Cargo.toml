[package]
name = "bark"
version = "0.1.0"
edition = "2021"
publish = false

[dependencies]
regex = "=1.13.1"
anyhow = "=1.0.104"
serde_json = "=1.0.151"
tokio = { version = "=1.53.2", features = ["macros", "rt-multi-thread", "sync", "time", "io-util", "fs", "process"] }
crossterm = "=0.28.1"
ratatui = "=0.29.0"
ansi-to-tui = "=7.0.0"
