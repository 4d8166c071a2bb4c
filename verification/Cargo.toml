[package]
name = "system_manager"
version = "0.1.0"
edition = "2021"
publish = false

[dependencies]
anyhow = "*"
clap = { version = "*", features = ["derive"] }
dbus = { version = "=0.9.12", features = ["vendored"] }
env_logger = "*"
log = "*"
nix = { version = "*", features = ["hostname"] }
rpassword = "*"
serde = { version = "*", features = ["derive"] }
serde_json = "*"
tempfile = "*"
thiserror = "*"
