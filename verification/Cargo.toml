[package]
name = "onebox_core"
version = "0.1.0"
edition = "2021"
publish = false

[dependencies]
aead = "*"
anyhow = "*"
blake3 = "*"
chacha20poly1305 = "*"
clap = { version = "*", features = ["derive"] }
network-interface = "*"
nix = { version = "*", features = ["net", "socket"] }
num_cpus = "*"
serde = { version = "*", features = ["derive"] }
tokio = { version = "*", features = ["full"] }
tokio-tun = "*"
toml = "*"
tracing = "*"
tracing-subscriber = "*"
