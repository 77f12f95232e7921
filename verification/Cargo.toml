[package]
name = "vpsnet"
version = "0.1.0"
edition = "2021"
publish = false

[dependencies]
clap = { version = "4", features = ["derive"] }
futures-util = "0.3"
log = "0.4"
netlink-packet-route = "0.17"
nix = "0.26"
pretty_env_logger = "0.5"
rtnetlink = "0.13"
serde = { version = "1", features = ["derive"] }
serde_json = "1"
tempfile = "3"
tera = { version = "1", default-features = false }
tokio = { version = "1", features = ["full"] }
