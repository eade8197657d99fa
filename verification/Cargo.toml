[package]
name = "yaak_grpc"
version = "0.1.0"
edition = "2021"
publish = false

[dependencies]
prost = "=0.13.5"
prost-types = "=0.13.5"
prost-reflect = "=0.14.7"
tonic = { version = "=0.12.3", features = ["tls-native-roots"] }
tonic-reflection = "=0.12.3"
tokio = { version = "=1.53.2", features = ["rt", "rt-multi-thread", "macros", "fs", "process"] }
tokio-stream = "=0.1.19"
uuid = { version = "=1.27.0", features = ["v4"] }
dunce = "=1.0.5"
