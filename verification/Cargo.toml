[package]
name = "roflux"
version = "0.1.0"
edition = "2021"
publish = false

[dependencies]
anyhow = "=1.0.104"
axum = { version = "=0.8.9", features = ["ws"] }
base64 = "=0.22.1"
clap = { version = "=4.6.7", features = ["derive"] }
futures-util = "=0.3.34"
globset = "=0.4.21"
mlua = { version = "=0.10.5", features = ["luau", "serialize", "send"] }
notify = "=8.2.1"
rbx_binary = "=3.0.1"
rbx_dom_weak = "=4.2.0"
rbx_reflection = "=7.0.0"
rbx_reflection_database = "=3.0.1"
rbx_types = "=3.1.0"
rbx_xml = "=3.0.1"
serde = { version = "=1.0.229", features = ["derive"] }
serde_json = "=1.0.154"
sha2 = "=0.10.9"
tokio = { version = "=1.54.1", features = ["full"] }
toml = "=0.8.23"
walkdir = "=2.5.0"
