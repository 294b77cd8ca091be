[package]
name = "ringfire"
version = "0.4.0"
edition = "2021"
publish = false

[dependencies]
futures-core = "0.3"
libc = "0.2"
memmap2 = "0.9"
tokio = { version = "1", features = ["rt", "time"] }
