[package]
name = "hyprwpe"
version = "0.1.0"
edition = "2021"
publish = false

[dependencies]
anyhow = "1"
clap = { version = "4", features = ["derive"] }
serde = { version = "1", features = ["derive"] }
serde_json = "1"
toml = "0.8"
smithay-client-toolkit = "0.19"
wayland-client = "0.31"
gtk4 = "0.9"
libadwaita = "0.7"
