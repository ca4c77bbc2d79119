[package]
name = "lazy_find"
version = "0.1.0"
edition = "2021"
publish = false

[dependencies]
bincode = "2"
crossterm = "0.28"
ratatui = "0.29"
rayon = "1"
tokio = { version = "1", features = ["rt-multi-thread", "macros", "fs", "io-util", "sync", "time"] }
