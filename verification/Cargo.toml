[package]
name = "protofetch"
version = "0.1.21"
edition = "2021"
publish = false

[dependencies]
toml = { version = "=0.8.23", features = ["preserve_order"] }
clap = { version = "=4.6.7", features = ["derive"] }
env_logger = "=0.11.11"
log = "=0.4.35"
git2 = "=0.20.4"
home = "=0.5.12"
rayon = "=1.12.0"
ssh-key = "=0.6.7"
fs4 = { version = "=0.13.1", features = ["sync"] }
anyhow = "=1.0.104"
thiserror = "=2.0.21"
regex = "1"
