[package]
name = "moon-pprof"
version = "0.1.0"
edition = "2021"
publish = false

[dependencies]
anyhow = "=1.0.104"
axum = "=0.8.9"
clap = { version = "=4.6.7", features = ["derive"] }
flate2 = "=1.1.10"
id-arena = "=2.3.0"
libc = "=0.2.191"
prost = "=0.14.4"
regex = "=1.13.1"
serde = { version = "=1.0.229", features = ["derive"] }
serde_json = { version = "=1.0.154", features = ["preserve_order"] }
tokio = { version = "=1.54.1", features = ["macros", "net", "rt-multi-thread"] }
walrus = "=0.27.3"
wasmtime = "=44.0.3"

[dev-dependencies]
wasmprinter = "=0.246.2"
wat = "=1.263.0"
