[package]
name = "finalfrontier"
version = "0.1.0"
edition = "2021"
publish = false

[dependencies]
anyhow = "*"
chrono = "*"
clap = "2"
conllx = "*"
indicatif = "*"
num_cpus = "*"
rand = "0.8"
rand_core = "0.6"
rand_xorshift = "0.3"
serde = { version = "1", features = ["derive"] }
stdinout = "*"
zipf = "*"
