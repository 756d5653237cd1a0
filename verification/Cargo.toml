[package]
name = "coordkv"
version = "0.1.0"
edition = "2021"
publish = false

[dependencies]
etcd-client = "=0.9.2"
tokio = { version = "=1.53.2", features = ["full"] }
bytes = "=1.12.1"
log = "=0.4.34"
anyhow = "=1.0.104"
