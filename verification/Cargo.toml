[package]
name = "inherit"
version = "0.1.0"
edition = "2021"
publish = false

[dependencies]
sha2 = "0.10"
hex = "0.4"
ignore = "0.4"
serde = { version = "1", features = ["derive"] }
toml = "*"
thiserror = "*"
console = "*"
dirs = "*"
inquire = "*"
anyhow = "1"
tokio = { version = "1", features = ["fs"] }
