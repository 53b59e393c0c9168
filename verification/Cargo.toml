[package]
name = "wheels"
version = "0.1.0"
edition = "2021"
publish = false

[dependencies]
pinocchio = "*"
pinocchio-log = "*"
bytemuck = { version = "1", features = ["derive"] }
