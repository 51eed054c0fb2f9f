[package]
name = "twwh3_mods"
version = "0.1.0"
edition = "2021"
publish = false

[dependencies]
anyhow = "=1.0.104"
image = { version = "=0.25.10", default-features = false, features = ["png"] }
ratatui = "=0.29.0"
ratatui-image = { version = "=8.1.1", default-features = false, features = ["crossterm"] }
serde_json = "=1.0.154"
sha2 = "=0.11.1"
tar = "=0.4.46"
