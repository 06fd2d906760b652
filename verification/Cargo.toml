[package]
name = "wasdb"
version = "0.1.0"
edition = "2021"
publish = false

[dependencies]
clap = { version = "4", features = ["derive"] }
crossterm = "0.28"
parking_lot = "0.12"
ratatui = "0.28"
thiserror = "1"
