[package]
name = "domain_pay"
version = "0.1.0"
edition = "2021"
publish = false

[dependencies]
rust-crypto = "=0.2.36"
hex = "=0.4.3"
regex = "=1.13.1"
bitcoincore-rpc = "=0.17.0"
chrono = "=0.4.45"
uuid = { version = "1", features = ["v4"] }
pqcrypto-dilithium = "=0.5.0"
pqcrypto-traits = "=0.3.5"
tokio = { version = "1", features = ["macros", "rt-multi-thread", "time"] }
poem = "3"
poem-openapi = { version = "5", features = ["swagger-ui", "uuid", "chrono"] }
sqlx = { version = "0.7", default-features = false, features = ["runtime-tokio", "postgres", "uuid", "chrono", "rust_decimal"] }
reqwest = { version = "0.11", default-features = false, features = ["json", "rustls-tls"] }
futures = "0.3"
serde = { version = "1", features = ["derive"] }
tracing = "0.1"
tracing-subscriber = "0.3"
color-eyre = "0.6"
dotenv = "0.15"
lazy_static = "1"
rust_decimal = "1"
