[package]
name = "shengji_core"
version = "0.1.0"
edition = "2021"
publish = false

[dependencies]
serde = { version = "1", features = ["derive"] }
smallvec = { version = "1", features = ["serde"] }
thiserror = "1"
