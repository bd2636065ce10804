[package]
name = "ldk_node"
version = "0.1.0"
edition = "2021"
publish = false

[dependencies]
base64 = "0.22"
bitcoin = "0.32"
chrono = "0.4"
lightning = "0.1"
lightning-block-sync = { version = "0.1", features = ["rest-client", "rpc-client", "tokio"] }
log = "0.4"
opentelemetry = "0.30"
opentelemetry-otlp = { version = "0.30", features = ["grpc-tonic"] }
opentelemetry-stdout = "0.30"
opentelemetry_sdk = "0.30"
serde = { version = "1", features = ["derive"] }
serde_json = "1"
tokio = { version = "1", features = ["rt-multi-thread", "sync"] }
tracing = "0.1"
tracing-opentelemetry = "0.31"
tracing-subscriber = { version = "0.3", features = ["json"] }
vss-client = "0.3"
