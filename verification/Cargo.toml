[package]
name = "shredstream_proxy"
version = "0.1.0"
edition = "2021"
publish = false

[dependencies]
arc-swap = "1"
bytes = "1"
clap = { version = "4", features = ["derive", "env"] }
crossbeam-channel = "0.5"
env_logger = "0.11"
hostname = "0.4"
itertools = "0.14"
lazy_static = "1"
libc = "0.2"
log = "0.4"
mio = { version = "1", features = ["os-poll", "net", "os-ext"] }
prometheus = { version = "0.13", default-features = false }
rand = "0.8"
reqwest = { version = "0.12", default-features = false, features = ["blocking", "rustls-tls"] }
serde = { version = "1", features = ["derive"] }
serde_json = "1"
signal-hook = "0.3"
socket2 = { version = "0.5", features = ["all"] }
solana-metrics = "=2.3.13"
solana-net-utils = "=2.3.13"
solana-perf = "=2.3.13"
solana-streamer = "=2.3.13"
thiserror = "1"
tiny_http = "0.12"
