[package]
name = "llm-relay"
version = "0.1.0"
edition = "2021"
publish = false

[dependencies]
bytes = "1"
futures-util = { version = "0.3", default-features = false, features = ["std"] }
http-body-util = "0.1"
hyper = { version = "1", features = ["client", "http1", "http2", "server"] }
hyper-rustls = { version = "0.27", default-features = false, features = ["http1", "http2", "ring", "tls12", "webpki-roots"] }
hyper-util = { version = "0.1", features = ["client", "client-legacy", "http1", "http2", "server", "server-auto", "server-graceful", "service", "tokio"] }
memchr = "2"
mimalloc = { version = "0.1", default-features = false }
tokio = { version = "1", features = ["macros", "net", "rt-multi-thread", "signal", "time"] }

[dev-dependencies]
serde_json = "1"
