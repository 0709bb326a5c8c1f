[package]
name = "ffs"
version = "0.1.0"
edition = "2021"
publish = false

[dependencies]
clap = { version = "4", features = ["derive"] }
crossterm = "0.25"
regex = "1"
tui = "0.19"
walkdir = "2"
