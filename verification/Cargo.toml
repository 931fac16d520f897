[package]
name = "libopendrive"
version = "0.1.1"
edition = "2021"
publish = false

[dependencies]
roxmltree = "0.20"
serde = { version = "1", features = ["derive"] }
thiserror = "2"
