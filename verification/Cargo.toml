[package]
name = "argus"
version = "0.1.0"
edition = "2021"
publish = false

[dependencies]
serde = { version = "1", features = ["derive"] }
serde_json = "1"
prost = "0.13"
opentelemetry-proto = { version = "0.27", default-features = false, features = ["gen-tonic-messages", "trace", "with-serde"] }
