[package]
name = "meetup"
version = "0.1.0"
edition = "2021"
publish = false

[dependencies]
sha2 = "0.10"
num-integer = "0.1"
serde = { version = "1", features = ["derive"] }
serde_json = "1"
anyhow = "1"
borsh = { version = "1", features = ["derive"] }
clap = { version = "4", features = ["derive"] }
tokio = { version = "1", features = ["macros", "rt-multi-thread"] }
actix-web = { version = "4", default-features = false, features = ["macros"] }
actix-cors = "0.7"
