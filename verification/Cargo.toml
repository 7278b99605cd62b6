[package]
name = "local_ci"
version = "0.1.0"
edition = "2021"
publish = false

[dependencies]
anyhow = "1"
async-stream = "0.3"
clap = { version = "4", features = ["derive"] }
futures = "0.3"
futures-core = "0.3"
git2 = { version = "*", default-features = false }
itertools = "*"
log = "0.4"
nix = { version = "*", features = ["signal", "process"] }
notify = "*"
serde = { version = "1", features = ["derive"] }
tempfile = "3"
tokio = { version = "1", features = ["process", "rt", "rt-multi-thread", "macros", "sync", "time", "io-util"] }
tokio-util = "*"
toml = "*"
