[package]
name = "poker_abstraction"
version = "0.1.0"
edition = "2021"
publish = false

[dependencies]
rand = "0.8"
rayon = "1"
serde = { version = "1", features = ["derive"] }
serde_json = "1"
bincode = "1"
smallvec = "1"
textplots = "0.8"

[dev-dependencies]
rand_distr = "0.4"
itertools = "0.13"
