[package]
name = "epub"
version = "0.1.0"
edition = "2021"
publish = false

[dependencies]
anyhow = "1"
clap = { version = "4", features = ["derive"] }
quick-xml = "0.37"
zip = { version = "2", default-features = false, features = ["deflate"] }
