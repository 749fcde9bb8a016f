[package]
name = "ensync"
version = "0.1.0"
edition = "2021"
publish = false

[dependencies]
chrono = "0.4"
flate2 = "1"
libc = "0.2"
notify = "4"
num_cpus = "1"
rpassword = "*"
serde = { version = "1", features = ["derive"] }
serde_json = "1"
sqlite = "*"
structopt = "0.3"
tempfile = "3"
tiny-keccak = "1"
toml = "0.5"
