[package]
name = "meetily"
version = "0.1.0"
edition = "2021"
publish = false

[dependencies]
uuid = { version = "*", features = ["v4"] }
chrono = { version = "*" }
sqlx = { version = "*", default-features = false, features = ["sqlite", "runtime-tokio", "chrono"] }
tokio = { version = "*", features = ["time", "rt", "sync", "macros"] }
serde = { version = "*", features = ["derive"] }
serde_json = "*"
plist = "*"
log = "*"
core-foundation-sys = "*"
