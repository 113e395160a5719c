[package]
name = "arkham_client"
version = "0.1.0"
edition = "2021"
publish = false

[dependencies]
ustr = "1"
serde = { version = "1", features = ["derive"] }
serde_json = "1"
serde_repr = "0.1"
wasm-bindgen = "0.2"
web-sys = { version = "0.3", features = ["Window", "Document", "Element", "DomTokenList"] }
