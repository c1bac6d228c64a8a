[package]
name = "ilias_extract"
version = "0.1.0"
edition = "2021"
publish = false

[dependencies]
anyhow = "1"
calamine = "*"
chrono = { version = "0.4", default-features = false, features = ["std"] }
clap = { version = "4", features = ["derive"] }
tempfile = "3"
zip = { version = "*", default-features = false, features = ["deflate"] }

[dev-dependencies]
regex = "1"
