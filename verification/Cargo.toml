[package]
name = "vanity-rs"
version = "0.1.0"
edition = "2021"
publish = false

[dependencies]
anyhow = "=1.0.104"
ash = { version = "=0.38.0", default-features = false, features = ["std", "loaded"] }
clap = { version = "=4.6.7", features = ["derive"] }
console = "=0.16.6"
crossbeam = "=0.8.5"
cudarc = { version = "*", default-features = false, features = ["std", "driver", "nvrtc", "dynamic-loading", "cuda-12080"] }
env_logger = "=0.11.11"
indicatif = "=0.18.6"
log = "=0.4.35"
num_cpus = "=1.17.0"
rand = "=0.8.8"
rand_chacha = "=0.3.1"
secp256k1 = { version = "=0.31.1", features = ["std", "global-context"] }
serde = { version = "=1.0.229", features = ["derive"] }
serde_json = "=1.0.154"
tempfile = "=3.27.0"
time = { version = "=0.3.55", features = ["formatting"] }
tiny-keccak = { version = "=2.0.2", features = ["keccak"] }
zeroize = "=1.9.1"

[dev-dependencies]
num-bigint = "=0.5.1"
