[package]
name = "sherlock_graph"
version = "0.1.0"
edition = "2021"
publish = false

[dependencies]
anyhow = "1"
chrono = "0.4"
clap = { version = "4", features = ["derive"] }
csv = "1"
indicatif = "0.17"
rand = "0.8"
rand_distr = "0.4"
rayon = "1"
ryu = "1"
serde = { version = "1", features = ["derive"] }
serde_json = "1"
