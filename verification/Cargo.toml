[package]
name = "dark_pig_git"
version = "0.1.0"
edition = "2021"
publish = false

[dependencies]
chrono = { version = "0.4", default-features = false, features = ["std"] }
dotenv = "0.15"
git2 = { version = "0.20", default-features = false }
lyon = "1.0"
