[package]
name = "terragrunt_dag"
version = "0.7.3"
edition = "2021"
publish = false

[dependencies]
camino = "1"
clap = { version = "4", features = ["derive"] }
dashmap = "6"
glob = "0.3"
hcl-rs = "*"
rayon = "1"
serde = { version = "1", features = ["derive"] }
serde_json = "1"
serde_yaml = "0.9"
thiserror = "2"
walkdir = "2"

[dev-dependencies]
tempfile = "3"
