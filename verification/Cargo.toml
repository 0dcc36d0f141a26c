[package]
name = "factory"
version = "0.1.0"
edition = "2021"
publish = false

[dependencies]
crossbeam-channel = "0.5"
indicatif = "0.15"
log = "0.4"
num_cpus = "1"
paw = "1.0"
pretty_env_logger = "0.4"
pyo3 = "0.20"
serde = { version = "1", features = ["derive"] }
structopt = { version = "0.3", features = ["paw"] }
terminal_size = "0.1"
toml = "0.5"
