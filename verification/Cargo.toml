[package]
name = "ftd_p11"
version = "0.1.0"
edition = "2021"
publish = false

[dependencies]
serde = { version = "1", features = ["derive"] }
serde_json = "1"
thiserror = "1"
regex = "1"
once_cell = "1"
dirs = "*"
tokio = { version = "1", features = ["fs"] }
rquickjs = "*"
