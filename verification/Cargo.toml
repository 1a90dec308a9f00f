[package]
name = "merge_scheduler"
version = "0.1.0"
edition = "2021"
publish = false

[dependencies]
rand = "=0.8.5"
rand_distr = "=0.4.3"
clap = { version = "4", features = ["derive"] }
serde = { version = "1", features = ["derive"] }
serde_json = "1"
