[package]
name = "nbv"
version = "0.4.1"
edition = "2021"
publish = false

[dependencies]
base64 = "=0.22.1"
clap = { version = "=4.6.7", features = ["derive", "env"] }
clap_complete = "=4.6.11"
clap_mangen = "=0.2.33"
crossterm = "=0.27.0"
pulldown-cmark = { version = "=0.10.3", default-features = false }
serde = { version = "=1.0.229", features = ["derive"] }
serde_json = "=1.0.154"
signal-hook = "=0.3.18"
syntect = { version = "=5.3.0", default-features = false, features = ["default-fancy"] }
unicode-width = "=0.1.14"
