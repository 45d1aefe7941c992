[package]
name = "nasdaq"
version = "0.3.0"
edition = "2021"
publish = false

[dependencies]
csv = "1"
thiserror = "2"
serde = { version = "1", features = ["derive"] }
serde_json = "1"
clap = { version = "4", features = ["derive"] }
anyhow = "1"
ureq = "3"
suppaftp = "*"
