[package]
name = "shadenbt"
version = "0.1.0"
edition = "2021"
publish = false

[dependencies]
mutf8 = "*"
serde = { version = "1", features = ["derive"] }
thiserror = "1"
