[package]
name = "soustraire"
version = "0.1.0"
edition = "2021"
publish = false

[dependencies]
image = "*"
imageproc = "*"
rayon = "*"
csv = "*"
glob = "*"
num_cpus = "*"
serde = { version = "*", features = ["derive"] }
serde_json = "*"
