[package]
name = "link_crawler"
version = "0.1.0"
edition = "2021"
publish = false

[dependencies]
regex = "=1.13.1"
hyper = { version = "=0.14.32", features = ["client", "http1", "tcp"] }
hyper-tls = "=0.5.0"
native-tls = "=0.2.18"
tokio = { version = "=1.54.1", features = ["rt", "time", "net"] }
ansi_term = "=0.11.0"
serde = { version = "=1.0.229", features = ["derive"] }
serde_json = "=1.0.154"
image = "0.23"
imageproc = "0.22"
rusttype = "0.9"
