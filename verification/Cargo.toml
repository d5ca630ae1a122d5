[package]
name = "fairdice"
version = "0.1.0"
edition = "2021"
publish = false

[dependencies]
itertools = "=0.15.0"
rayon = "=1.12.0"
indicatif = "0.17"
log = "=0.4.34"
simple-logging = "=2.0.2"
structopt = "=0.3.26"
serde = { version = "=1.0.229", features = ["derive"] }
serde_json = "=1.0.151"
