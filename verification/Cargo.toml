[package]
name = "repo_search"
version = "0.1.0"
edition = "2021"
publish = false

[dependencies]
regex = "=1.13.1"
regex-syntax = "=0.8.11"
dotenv = "=0.15.0"
git2 = { version = "=0.21.0", features = ["https", "ssh"] }
rocket = { version = "=0.5.2", features = ["json"] }
serde = { version = "=1.0.229", features = ["derive"] }
