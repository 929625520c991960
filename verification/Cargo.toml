[package]
name = "openapi_path_filter"
version = "0.1.0"
edition = "2021"
publish = false

[dependencies]
lru = { version = "=0.18.5", default-features = false }
serde_json = "=1.0.151"
proxy-wasm = "=0.2.5"
log = "=0.4.34"
