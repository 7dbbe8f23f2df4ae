[package]
name = "quic_cm"
version = "0.1.0"
edition = "2021"
publish = false

[dependencies]
quiche = "=0.30.0"
mio = { version = "=1.2.4", features = ["net", "os-poll", "os-ext"] }
mio-signals = "=0.3.0"
nix = { version = "=0.31.3", features = ["fs"] }
ring = "=0.17.14"
tokio = { version = "=1.53.2", features = ["net", "io-util", "rt", "macros", "time"] }
