[package]
name = "argtuner"
version = "0.1.0"
edition = "2021"
publish = false

[dependencies]
shell-words = "=1.1.1"
serde = { version = "=1.0.229", features = ["derive"] }
serde_json = "=1.0.154"
similar = "=2.7.0"
chrono = "=0.4.45"
rand = "=0.9.5"
toml = "=0.8.23"
csv = "=1.4.0"
rusqlite = { version = "=0.31.0", features = ["bundled"] }
tempfile = "=3.27.0"
clap = { version = "=4.6.7", features = ["derive"] }
ctrlc = "=3.5.2"
walkdir = "=2.5.0"
libc = "=0.2.191"
portable-pty = "=0.8.1"
line-ending = "=1.6.0"
thiserror = "=1.0.69"
argmin = { version = "=0.11.0", features = ["serde1"] }
argmin-math = { version = "=0.5.1", features = ["vec"] }
