[package]
name = "sheet_excavator"
version = "0.1.0"
edition = "2021"
publish = false

[dependencies]
chrono = { version = "0.4", default-features = false, features = ["std", "alloc"] }
calamine = "0.26"
serde_json = "1"
tokio = { version = "1", default-features = false, features = ["rt-multi-thread", "sync"] }
futures = "0.3"
