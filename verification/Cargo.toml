[package]
name = "wikipedia_revisions_server"
version = "0.1.0"
edition = "2021"
publish = false

[dependencies]
actix-rt = "1"
actix-web = "3"
brotli2 = "0.3"
bytes = "0.5"
chrono = { version = "0.4", features = ["serde"] }
clap = "2"
colored = "2"
crossbeam = "0.7"
csv = "1"
futures = "0.3"
lazy_static = "1"
num_cpus = "1"
regex = "1"
serde = { version = "1", features = ["derive"] }
serde_json = "1"
