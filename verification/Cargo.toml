[package]
name = "foobar_db"
version = "0.1.0"
edition = "2021"
publish = false

[dependencies]
dashmap = "*"
tokio = { version = "*", features = ["net", "rt-multi-thread", "io-util", "sync", "macros", "signal", "time"] }
num_cpus = "*"
