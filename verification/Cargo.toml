[package]
name = "stash_cli"
version = "0.1.0"
edition = "2021"
publish = false

[dependencies]
blake3 = "1"
clap = { version = "4", features = ["derive"] }
clap_complete = "4"
serde = { version = "1", features = ["derive"] }
serde_json = "1"
rkyv = "0.8"
bincode = { version = "2", features = ["serde"] }
signal-hook = "0.4"
notify = "8"
tokio = { version = "1", features = ["rt-multi-thread", "macros", "io-util", "sync", "time"] }
iroh = { version = "1", default-features = false }
