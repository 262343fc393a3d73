[package]
name = "ministore_pos"
version = "0.1.0"
edition = "2021"
publish = false

[dependencies]
chrono = "*"
cursive = { version = "*", default-features = false, features = ["crossterm-backend"] }
unicode-segmentation = "*"
