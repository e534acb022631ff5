[package]
name = "blaze"
version = "0.1.0"
edition = "2021"
publish = false

[dependencies]
anyhow = "1"
array2d = "*"
clap = { version = "4", features = ["derive"] }
serde = { version = "1", features = ["derive"] }
serde_json = "1"
sha2 = "0.10"
