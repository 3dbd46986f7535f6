[package]
name = "vnt"
version = "0.1.0"
edition = "2021"
publish = false

[dependencies]
sha2 = "=0.10.9"
nova-snark = "=0.76.0"
ff = "=0.13.1"
generic-array = "=1.4.5"
merkle_light = "=0.4.0"
serde = { version = "=1.0.229", features = ["derive"] }
bincode = "=1.3.3"
hex = "=0.4.3"
clap = { version = "=4.6.7", features = ["derive"] }
tokio = { version = "=1.54.1", features = ["full"] }
tokio-postgres = "=0.7.18"
dotenv = "=0.15.0"
tracing = "=0.1.44"
tracing-appender = "=0.2.5"
tracing-subscriber = { version = "=0.3.23", features = ["env-filter"] }
rand = "=0.9.5"
once_cell = "=1.21.4"
flate2 = "=1.1.10"
