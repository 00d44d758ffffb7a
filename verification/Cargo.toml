[package]
name = "birb_task"
version = "0.1.0"
edition = "2021"
publish = false

[dependencies]
anyhow = "1"
clap = { version = "4", features = ["derive"] }
colored = "2"
ctrlc = "3"
env_logger = "0.11"
handlebars = "6"
indicatif = "0.17"
libc = "0.2"
linked-hash-map = "0.5"
linked_hash_set = "0.1"
log = "0.4"
makefile-lossless = "*"
num_cpus = "1"
pathdiff = "0.2"
serde = { version = "1", features = ["derive"] }
serde_json = "1"
sha2 = "0.10"
shlex = "1"
tempfile = "3"
termimad = "*"
thiserror = "1"
tokio = { version = "1", features = ["rt", "rt-multi-thread", "macros", "signal", "time", "sync"] }
yaml-rust = "0.4"
