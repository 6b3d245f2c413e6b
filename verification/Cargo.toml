[package]
name = "projects_fs"
version = "0.1.0"
edition = "2021"
publish = false

[dependencies]
regex = "1"
fuser = { version = "0.7", default-features = false }
libc = "0.2"
pico-args = "0.4"
env_logger = "0.8"
serde = { version = "1", features = ["derive"] }
toml = "0.5"
