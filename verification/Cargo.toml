[package]
name = "mock_server"
version = "0.1.0"
edition = "2021"
publish = false

[dependencies]
actix-web = "*"
clap = { version = "*", features = ["derive"] }
crossterm = "*"
log = "*"
ratatui = "*"
shlex = "*"
thiserror = "*"
tokio = { version = "*", features = ["rt-multi-thread", "sync"] }
