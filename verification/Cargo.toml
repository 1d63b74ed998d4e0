[package]
name = "sptorch"
version = "0.1.0"
edition = "2021"
publish = false

[dependencies]
libloading = "0.8"
matrixmultiply = "0.3"
rand = "0.8"
serde = { version = "1", features = ["derive"] }
serde_json = "1"
serialport = { version = "4", default-features = false }
thiserror = "1"
tokio = { version = "1", features = ["macros", "rt-multi-thread", "sync", "time"] }
tonic = "0.12"
