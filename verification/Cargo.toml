[package]
name = "oodles"
version = "0.1.0"
edition = "2021"
publish = false

[dependencies]
argon2 = "0.4"
confindent = "2"
getopts = "0.2"
hyper = { version = "0.14", features = ["full"] }
rand = "0.8"
serde = { version = "1", features = ["derive"] }
serde_json = "1"
time = { version = "0.3", features = ["formatting", "parsing", "macros"] }
tokio = { version = "1", features = ["full"] }
