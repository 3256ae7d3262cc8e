[package]
name = "inkify"
version = "0.1.0"
edition = "2021"
publish = false

[dependencies]
actix-web = { version = "4", default-features = false, features = ["macros"] }
anyhow = "1"
clap = { version = "4", features = ["derive"] }
font-kit = "0.11"
image = { version = "0.24", default-features = false, features = ["png"] }
lazy_static = "1"
reqwest = { version = "0.11", default-features = false }
serde = { version = "1", features = ["derive"] }
silicon = { version = "0.5", default-features = false }
syntect = "5"
tensorflow = "0.21"
