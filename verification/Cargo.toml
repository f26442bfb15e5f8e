[package]
name = "ink_core"
version = "0.10.0"
edition = "2021"
publish = false

[dependencies]
genpdf = "*"
serde = { version = "1", features = ["derive"] }
