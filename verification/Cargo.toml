[package]
name = "keymap_suite"
version = "0.1.0"
edition = "2021"
publish = false

[dependencies]
toml = "*"
serde = { version = "1", features = ["derive"] }
time = { version = "0.3", features = ["formatting"] }
rustix = { version = "*", features = ["event", "stdio", "termios"] }
ratatui = "*"
crossterm = "*"
