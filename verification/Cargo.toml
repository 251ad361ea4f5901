[package]
name = "apophthegm"
version = "0.1.0"
edition = "2021"
publish = false

[dependencies]
wgpu = "0.19"
tokio = { version = "1", features = ["rt", "rt-multi-thread", "macros", "sync"] }
tokio-util = { version = "0.7", features = ["rt"] }
pollster = "0.3"
futures-channel = "0.3"
bytemuck = "1"
log = "0.4"
env_logger = "*"
