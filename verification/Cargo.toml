[package]
name = "taskflowrs"
version = "0.1.0"
edition = "2021"
publish = false

[dependencies]
num_cpus = "1"
libc = "0.2"
tokio = { version = "1", features = ["rt-multi-thread", "sync", "time"] }
