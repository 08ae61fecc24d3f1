[package]
name = "deduplicate"
version = "0.1.0"
edition = "2021"
publish = false

[dependencies]
anyhow = "*"
arrow = "*"
arrow-array = "*"
cityhasher = "*"
clap = { version = "*", features = ["derive"] }
console = "*"
env_logger = "*"
globwalk = "*"
indicatif = "*"
log = "*"
md5 = "*"
parquet = "*"
rand = "0.8"
rand_chacha = "0.3"
similar = { version = "*", features = ["text", "inline"] }
threadpool = "*"
uuid = { version = "*", features = ["v4"] }
zstd = "*"
