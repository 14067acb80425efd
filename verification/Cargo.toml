[package]
name = "dpml"
version = "0.1.0"
edition = "2021"
publish = false

[dependencies]
smallvec = "1"
rustc-hash = "2"
priority-queue = "2"
clap = { version = "4", features = ["derive"] }
rand = "0.9"
serde = { version = "1", features = ["derive"] }
serde_json = "1"
