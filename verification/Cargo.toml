[package]
name = "sweet_potator"
version = "0.1.0"
edition = "2021"
publish = false

[dependencies]
sanitize-filename = "*"
slug = "*"
clap = { version = "*", features = ["derive"] }
dirs-next = "*"
owo-colors = "*"
serde = { version = "*", features = ["derive"] }
serde_json = "*"
thiserror = "*"
toml = "*"
tera = "*"
