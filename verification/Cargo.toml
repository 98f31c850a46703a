[package]
name = "rusty_quantum"
version = "0.1.0"
edition = "2021"
publish = false

[dependencies]
serde = { version = "1", features = ["derive"] }
serde_json = "1"
reqwest = { version = "0.12", default-features = false, features = ["json", "rustls-tls"] }
tokio = { version = "1", features = ["macros", "rt-multi-thread", "time"] }
nalgebra = "0.33"
num = "0.4"
num-complex = "0.4"
rand = "0.8"
colored = "2"
