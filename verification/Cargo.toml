[package]
name = "polyvoice"
version = "0.1.0"
edition = "2021"
publish = false

[dependencies]
num_cpus = "=1.17.0"
clap = { version = "=4.6.7", features = ["derive"] }
hound = "=3.5.1"
indicatif = "=0.18.6"
midi-toolkit-rs = "=0.3.1"
rand = "=0.10.3"
rayon = "=1.12.0"
rfd = "=0.17.2"
