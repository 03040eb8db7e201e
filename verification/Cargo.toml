[package]
name = "padloper"
version = "0.1.0"
edition = "2021"
publish = false

[dependencies]
anyhow = "1"
clap = { version = "4", features = ["derive"] }
crossterm = "*"
nucleo-matcher = "0.3"
rusqlite = { version = "*", features = ["bundled"] }
unicode-segmentation = "1"
unicode-width = "0.2"
