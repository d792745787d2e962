[package]
name = "todo_cli"
version = "0.1.0"
edition = "2021"
publish = false

[dependencies]
csv = "1"
pulldown-cmark = "*"
rusqlite = { version = "*", features = ["bundled"] }
clap = { version = "4", features = ["derive"] }
crossterm = "*"
ratatui = "*"
chrono = "0.4"
daemonize = "*"
directories = "*"
libc = "0.2"
notify-rust = "*"
