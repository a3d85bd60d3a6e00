[package]
name = "private_scoring"
version = "0.1.0"
edition = "2021"
publish = false

[dependencies]
async-trait = "=0.1.92"
cudarc = { version = "=0.19.10", default-features = false, features = ["std", "driver", "dynamic-loading", "cuda-12080"] }
cuvs = "*"
cuvs-sys = "*"
fhe = "=0.1.1"
fhe-traits = "=0.1.1"
memmap2 = "=0.9.12"
ndarray = "=0.17.2"
nvml-wrapper = "=0.13.0"
rand = { version = "=0.10.3", features = ["chacha"] }
rand_chacha = "=0.9.0"
rand_distr = "=0.6.0"
rayon = "=1.12.0"
thiserror = "=2.0.21"
tokio = { version = "=1.54.1", features = ["rt", "rt-multi-thread", "sync", "macros"] }
wide = "=1.7.1"
