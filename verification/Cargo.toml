[package]
name = "zfs"
version = "0.1.0"
edition = "2021"
publish = false

[dependencies]
checksum = "*"
zenoh = { version = "1", default-features = false }
tokio = { version = "1", default-features = false, features = ["rt-multi-thread", "macros", "fs", "time", "sync"] }
notify = { version = "*", default-features = false }
clap = { version = "4", default-features = false, features = ["std", "help", "usage"] }
log = "*"
env_logger = { version = "*", default-features = false }
uuid = { version = "1", features = ["v4"] }

[dev-dependencies]
serde_json = "1"
