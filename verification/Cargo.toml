[package]
name = "tesseras-repl"
version = "0.1.0"
edition = "2021"
publish = false

[dependencies]
anyhow = "=1.0.104"
dirs = "=7.0.0"
getopts = "=0.2.24"
hex = "=0.4.3"
indicatif = "=0.18.6"
libc = "=0.2.191"
rusqlite = { version = "=0.41.1", features = ["bundled"] }
rustyline = "=19.0.0"
tempfile = "=3.27.0"
tesseras-dht = "=0.1.4"
tokio = { version = "=1.50.0", features = ["full"] }
tracing-subscriber = { version = "=0.3.23", features = ["env-filter"] }
