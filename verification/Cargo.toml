[package]
name = "ranker"
version = "0.1.0"
edition = "2021"
publish = false

[dependencies]
anyhow = "1"
csv = "1"
dirs = "6"
env_logger = "0.11"
image = "0.25"
log = "0.4"
rand = "0.9"
ratatui = "0.29"
ratatui-image = "8"
tui-textarea = "0.7"
