[package]
name = "notation"
version = "0.1.0"
edition = "2021"
publish = false

[dependencies]
anyhow = "1"
itertools = "0.13"
serde = { version = "1", features = ["derive"] }
thiserror = "1"
