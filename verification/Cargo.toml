[package]
name = "wiretap"
version = "0.1.0"
edition = "2021"
publish = false

[dependencies]
futures = "=0.3.34"
libp2p-core = "=0.44.0"
libp2p-identity = { version = "=0.3.1", features = ["peerid", "rand"] }
pin-project = "=1.1.13"
quick-protobuf = "=0.8.1"
tokio = { version = "=1.54.1", features = ["sync", "fs", "io-util", "net", "time", "rt"] }
tracing = "=0.1.44"
unsigned-varint = "=0.8.0"
web-time = "=1.1.0"
