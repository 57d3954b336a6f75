[package]
name = "sidebar"
version = "0.1.0"
edition = "2021"
publish = false

[dependencies]
anyhow = "1"
console = "*"
crossterm = "*"
ignore = "*"
libc = "0.2"
notify = "*"
ratatui = "*"
serde = { version = "1", features = ["derive"] }
serde_json = "1"
signal-hook = "*"
terminal-light = "*"
tracing = "0.1"
unicode-width = "*"
