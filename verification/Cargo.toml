[package]
name = "safari_stats"
version = "0.1.0"
edition = "2021"
publish = false

[dependencies]
anyhow = "=1.0.104"
bincode = "=1.3.3"
chrono = "=0.4.45"
extsort = "=0.4.2"
fst = "=0.4.7"
memmap = "=0.7.0"
rand = "=0.8.8"
rand_distr = "=0.4.3"
rand_pcg = "=0.3.1"
rayon = "=1.12.0"
regex = "=1.13.1"
serde = { version = "=1.0.229", features = ["derive"] }
structopt = "=0.3.26"
uuid = { version = "=1.29.0", features = ["v4"] }
