[package]
name = "daylight"
version = "0.1.0"
edition = "2021"
publish = false

[dependencies]
anyhow = "*"
chrono = "=0.4.45"
glob = "*"
neovim-lib = "*"
rmp = "=0.8.10"
reqwest = { version = "*", default-features = false, features = ["blocking", "json"] }
serde = { version = "*", features = ["derive"] }
serde_json = "*"
shellexpand = "*"
structopt = "*"
