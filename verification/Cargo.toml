[package]
name = "nix_user_chroot"
version = "0.1.0"
edition = "2021"
publish = false

[dependencies]
env_logger = "0.11"
libc = "0.2"
log = "0.4"
nix = { version = "0.29", features = ["fs", "mount", "process", "sched", "signal", "user"] }
serde = "1"
serde_derive = "1"
toml = "0.8"
