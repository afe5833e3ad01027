[package]
name = "chain_index"
version = "0.1.0"
edition = "2021"
publish = false

[dependencies]
mset = "*"
hyper = { version = "0.14", features = ["server", "http1", "tcp", "runtime"] }
tokio = { version = "1", features = ["rt-multi-thread", "macros", "net"] }
