[package]
name = "mlp"
version = "0.1.0"
edition = "2021"
publish = false

[dependencies]
rand = "=0.9.5"
rand_distr = "=0.5.1"
thiserror = "=2.0.21"
threadpool = "=1.8.1"
anyhow = "=1.0.104"

[dev-dependencies]
binrw = "*"
