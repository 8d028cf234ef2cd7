[package]
name = "this_cmd"
version = "0.1.0"
edition = "2021"
publish = false

[dependencies]
clap = { version = "4", features = ["derive"] }
crossterm = "0.28"
dirs = "6"
glob = "0.3"
ratatui = "0.29"

[dev-dependencies]
regex = "1"
