[package]
name = "name_canister"
version = "0.1.0"
edition = "2021"
publish = false

[dependencies]
base64 = "=0.22.1"
candid = { version = "=0.10.39", features = ["value"] }
ic-agent = "=0.49.3"
ic-auction = "=0.1.0"
ic-cdk = "=0.20.3"
ic-certification = "=3.2.0"
ic-stable-structures = "=0.7.2"
serde = { version = "=1.0.229", features = ["derive"] }
serde_bytes = "=0.11.19"
serde_cbor = "=0.11.2"
serde_json = "=1.0.154"
sha2 = "=0.10.9"
tokio = { version = "=1.54.1", features = ["macros", "rt-multi-thread"] }
