[package]
name = "smllm"
version = "0.1.0"
edition = "2021"
publish = false

[dependencies]
serde = { version = "1", features = ["derive"] }
serde_json = { version = "1", features = ["preserve_order"] }
toml_edit = "*"
regex = "1"
getrandom = "0.3"
etcetera = "*"
clap = { version = "4", features = ["derive"] }
clap_complete = "4"
thiserror = "2"
wait-timeout = "0.2"
