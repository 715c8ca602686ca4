[package]
name = "net"
version = "0.1.0"
edition = "2021"
publish = false

[dependencies]
rand = "0.8"
rand_chacha = "0.3"
anyhow = "1"
serde = { version = "1", features = ["derive"] }
bincode = "1"
tracing = "0.1"
chrono = "0.4"
bytes = "1"
tokio = { version = "1", features = ["rt", "rt-multi-thread", "macros", "sync", "time", "signal", "io-util"] }
iroh = "*"
iroh-mdns-address-lookup = "*"
n0-future = "*"
