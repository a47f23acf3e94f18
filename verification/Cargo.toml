[package]
name = "termcopy"
version = "0.1.0"
edition = "2021"
publish = false

[dependencies]
anyhow = "1"
arboard = { version = "3", default-features = false }
clap = { version = "4", features = ["derive"] }
memchr = "2"
serde = { version = "1", features = ["derive"] }
serde_json = "1"
unicode-segmentation = "1"
