[package]
name = "rtrtr"
version = "0.1.0"
edition = "2021"
publish = false

[dependencies]
rpki = { version = "=0.20.1", features = ["rtr", "slurm"] }
chrono = "=0.4.45"
serde = { version = "=1.0.229", features = ["derive"] }
serde_json = "=1.0.154"
rand = "=0.8.8"

[dev-dependencies]
rand_pcg = "=0.3.1"
