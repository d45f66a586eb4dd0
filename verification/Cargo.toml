[package]
name = "mepul"
version = "0.1.0"
edition = "2021"
publish = false

[dependencies]
anyhow = "1"
clap = { version = "4", features = ["derive"] }
futures-util = "0.3"
reqwest = { version = "0.12", default-features = false, features = ["json", "rustls-tls"] }
serde = { version = "1", features = ["derive"] }
serde_json = "1"
sha2 = "0.10"
smol = "2"
tar = "0.4"
tokio = { version = "1", features = ["rt-multi-thread", "macros", "net", "io-util", "fs"] }
