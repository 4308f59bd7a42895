[package]
name = "countdown"
version = "0.1.0"
edition = "2021"
publish = false

[dependencies]
chrono = "=0.4.45"
anyhow = "=1.0.104"
dotenvy = "=0.15.7"
serde = { version = "=1.0.229", features = ["derive"] }
serenity = { version = "=0.12.5", default-features = false, features = ["client", "gateway", "model", "cache", "rustls_backend"] }
tokio = { version = "=1.54.1", features = ["macros", "rt-multi-thread"] }
wasi = "=0.14.7"
leptos = { version = "0.8", features = ["csr"] }
leptos_meta = "0.8"
gloo-net = "0.6"
wasm-bindgen = "0.2"
web-sys = { version = "0.3", features = ["MouseEvent"] }
console_error_panic_hook = "0.1"
console_log = "1"
log = "0.4"
