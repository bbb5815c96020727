[package]
name = "quiet"
version = "0.1.0"
edition = "2021"
publish = false

[dependencies]
regex = "1"
serde = { version = "1", features = ["derive"] }
serde_json = "1"
toml = "0.8"
dirs = "5"
tempfile = "3"
tracing = "0.1"
tracing-subscriber = { version = "0.3", features = ["env-filter"] }
clap = { version = "4", features = ["derive"] }
rustix = { version = "0.38", features = ["fs", "process"] }
tokio = { version = "1", features = ["full"] }
tokio-stream = "0.1"
tokio-util = { version = "0.7", features = ["time"] }
zbus = { version = "5", features = ["tokio"] }
zvariant = "5"
tiny-skia = "0.11"
resvg = "0.45"
usvg = "0.45"
cosmic-text = "0.12"
smithay-client-toolkit = "0.19"
calloop = "0.13"
calloop-wayland-source = "0.3"
