[package]
name = "deno_ops"
version = "0.1.0"
edition = "2021"
publish = false

[dependencies]
hyper = { version = "0.14", features = ["server", "http1", "http2", "runtime", "stream"] }
tokio = { version = "1", features = ["full"] }
tokio-util = { version = "0.6", features = ["io"] }
bytes = "1"
serde = { version = "1", features = ["derive"] }
libc = "0.2"
websocket = { version = "0.26", default-features = false, features = ["sync"] }
deno_core = "0.84"
