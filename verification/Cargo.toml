[package]
name = "diffmap"
version = "0.1.0"
edition = "2021"
publish = false

[dependencies]
env_logger = "=0.11.11"
zenforks-cubecl = { version = "=0.10.1", default-features = false, features = ["cuda", "wgpu"] }
