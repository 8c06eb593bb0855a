[package]
name = "cov"
version = "0.1.0"
edition = "2021"
publish = false

[dependencies]
byteorder = "=1.5.0"
fixedbitset = "=0.5.7"
natord = "=1.0.9"
petgraph = "=0.8.3"
regex = "=1.13.1"
serde = { version = "=1.0.229", features = ["derive"] }
serde_json = "=1.0.154"
shawshank = "=0.2.3"
stable_deref_trait = "=1.2.1"
