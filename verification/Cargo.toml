[package]
name = "udcn_transport"
version = "0.1.0"
edition = "2021"
publish = false

[dependencies]
sha2 = "=0.10.9"
rand = "=0.8.8"
lru = "=0.19.0"
dashmap = "=6.2.1"
hex = "=0.4.3"
ring = "=0.17.14"
tokio = { version = "=1.54.1", features = ["rt-multi-thread", "time", "sync", "net", "io-util"] }
quinn = "=0.10.2"
rustls = { version = "=0.21.12", features = ["dangerous_configuration"] }
rcgen = "=0.11.3"
