[package]
name = "iddqd"
version = "0.1.0"
edition = "2021"
publish = false

[dependencies]
hashbrown = "=0.15.5"
serde = { version = "=1.0.229", features = ["derive"] }
serde_json = "=1.0.154"
daft = "=0.1.8"
schemars = "=0.8.22"
allocator-api2 = "=0.2.21"
