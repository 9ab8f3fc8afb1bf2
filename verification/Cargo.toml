[package]
name = "iroh_esp32"
version = "0.1.0"
edition = "2021"
publish = false

[dependencies]
anyhow = "1"
gloo-timers = { version = "0.4", features = ["futures"] }
iroh = { version = "1.4", default-features = false, features = ["tls-ring"] }
iroh-tickets = "1"
irpc = { version = "*", default-features = false, features = ["derive", "rpc"] }
irpc-iroh = { version = "*", default-features = false }
js-sys = "0.3"
rustls = { version = "0.23", default-features = false, features = ["ring", "std"] }
serde = { version = "1", features = ["derive"] }
serde-wasm-bindgen = "0.6"
tokio = { version = "1", features = ["rt-multi-thread", "macros", "time", "io-util"] }
tracing = "0.1"
tracing-subscriber = { version = "0.3", default-features = false, features = ["fmt"] }
wasm-bindgen = "0.2"
wasm-bindgen-futures = "0.4"
