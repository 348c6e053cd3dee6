[package]
name = "cylon"
version = "0.3.0"
edition = "2021"

[dependencies]
futures-util = { version = "0.3", default-features = false, features = ["io"] }
serde = "1.0"
serde_derive = "1.0"
