[package]
name = "obsidian_todo"
version = "0.1.0"
edition = "2021"
publish = false

[dependencies]
chrono = { version = "0.4", features = ["clock"] }
clap = { version = "4", features = ["derive"] }
fs2 = "0.4"
libc = "0.2"
regex = "1"
serde = { version = "1", features = ["derive"] }
serde_json = "1"
serde_yaml_ng = "0.10"
sha2 = "0.10"
tempfile = "3"
toml = { version = "0.8", features = ["preserve_order"] }
ulid = "1"
walkdir = "2"
