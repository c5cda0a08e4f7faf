[package]
name = "review_todo"
version = "0.1.0"
edition = "2021"
publish = false

[dependencies]
mockcmd = "=0.0.1"
chrono = "=0.4.45"
which = "=8.0.6"
dirs = "=7.0.0"
toml = "=1.1.7"
serde = "=1.0.229"
serde_derive = "=1.0.229"

[dev-dependencies]
mockcmd = { version = "=0.0.1", features = ["test"] }
