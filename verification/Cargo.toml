[package]
name = "markov_chains_bot"
version = "0.1.0"
edition = "2021"
publish = false

[dependencies]
postcard = { version = "1.0.10", features = ["alloc"] }
unicode-width = "0.1.14"
xxh3 = "0.1.1"
poise = "0.6.2"
tokio = { version = "1", features = ["macros", "rt-multi-thread", "sync"] }
reqwest = { version = "0.11", default-features = false, features = ["rustls-tls"] }
rusqlite = { version = "0.31", features = ["bundled"] }
chrono = "0.4.45"
bytes = "1"
sysinfo = "0.30.13"
