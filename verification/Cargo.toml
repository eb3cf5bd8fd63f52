[package]
name = "svve_core"
version = "0.1.0"
edition = "2021"
publish = false

[dependencies]
hashbrown = "*"
serde_json = "*"
serde = { version = "*", features = ["derive"] }
thiserror = "*"
tokio = { version = "*", features = ["rt-multi-thread", "sync"] }
reqwest = { version = "*", default-features = false, features = ["json", "rustls-tls"] }
sqlx = { version = "*", default-features = false, features = ["runtime-tokio", "postgres", "json"] }
pyo3 = "*"
numpy = "*"
