[package]
name = "smelt_content"
version = "0.1.0"
edition = "2021"
publish = false

[dependencies]
unicode-width = "0.2"
syntect = { version = "5", default-features = false, features = ["default-fancy"] }
two-face = { version = "0.4", default-features = false, features = ["syntect-default-fancy"] }
bincode = "1"
serde = { version = "1", features = ["derive"] }
serde_json = "1"
crossterm = "0.28"
