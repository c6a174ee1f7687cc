[package]
name = "neolink"
version = "0.1.0"
edition = "2021"
publish = false

[dependencies]
anyhow = "1"
axum = "0.7"
clap = { version = "4", features = ["derive"] }
gstreamer = "0.23"
gstreamer-app = "0.23"
gstreamer-video = "0.23"
log = "0.4"
objc2 = "0.6"
objc2-core-foundation = "0.3"
objc2-io-surface = "0.3"
objc2-metal = "0.3"
serde = { version = "1", features = ["derive"] }
serde_json = "1"
syphon-core = "*"
syphon-metal = "*"
tokio = { version = "1", features = ["macros", "net", "rt-multi-thread", "sync", "time"] }
toml = "0.8"
