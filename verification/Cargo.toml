[package]
name = "nadi_gis"
version = "0.1.0"
edition = "2021"
publish = false

[dependencies]
abi_stable = "=0.11.3"
anyhow = "=1.0.104"
chrono = "=0.4.45"
clap = { version = "=4.6.7", features = ["derive"] }
gdal = "=0.19.0"
gdal-sys = "=0.12.0"
itertools = "=0.15.0"
nadi_core = { version = "=0.8.1", features = ["chrono"] }
ordered-float = "=5.5.0"
rayon = "=1.12.0"
reqwest = { version = "=0.12.28", default-features = false, features = ["blocking", "rustls-tls"] }
rstar = "=0.13.0"
