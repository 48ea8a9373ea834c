[package]
name = "vecbase"
version = "0.1.0"
edition = "2021"
publish = false

[dependencies]
rand = "*"
varintrs = "*"
memmap2 = "*"
tokio = { version = "*", features = ["rt", "rt-multi-thread", "sync", "macros", "time"] }
parking_lot = "*"
serde = { version = "*", features = ["derive"] }
thiserror = "*"
