[package]
name = "rustasshn"
version = "0.1.0"
edition = "2021"
publish = false

[dependencies]
anyhow = "1"
chrono = "0.4"
clap = { version = "4", features = ["derive"] }
crossterm = "0.28"
directories = "*"
glob = "0.3"
nix = { version = "0.29", features = ["fs", "term"] }
ratatui = "0.29"
serde = { version = "1", features = ["derive"] }
serde_json = "1"
which = "*"
