[package]
name = "hysteria2"
version = "0.1.0"
edition = "2021"
publish = false

[dependencies]
quinn = { version = "=0.11.12", default-features = false, features = ["runtime-tokio", "rustls-ring"] }
rustls = { version = "=0.23.46", default-features = false, features = ["ring", "std", "tls12"] }
rustls-pemfile = "=2.2.0"
sha2 = "=0.10.9"
tokio = { version = "=1.54.1", default-features = false, features = ["io-util", "net", "rt", "sync"] }
tracing = "=0.1.44"
webpki-roots = "=1.0.10"
