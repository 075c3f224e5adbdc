[package]
name = "nldb"
version = "0.1.0"
edition = "2021"
publish = false

[dependencies]
bytes = "*"
num_cpus = "*"
tokio = { version = "*", features = ["full"] }
dash_cache = "*"
memmap2 = "*"
rayon = "*"
serde = { version = "*", features = ["derive"] }
walkdir = "*"
yaml_serde = "*"
