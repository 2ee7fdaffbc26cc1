[package]
name = "webimint"
version = "0.1.0"
edition = "2021"
publish = false

[dependencies]
anyhow = "=1.0.104"
async-trait = "=0.1.92"
fedimint-core = "=0.2.2"
futures = "=0.3.34"
gloo-storage = "=0.3.0"
serde = { version = "=1.0.229", features = ["derive"] }
serde_json = "=1.0.154"
thiserror = "=1.0.69"
tracing = "=0.1.44"
wasm-bindgen-futures = "=0.4.79"
