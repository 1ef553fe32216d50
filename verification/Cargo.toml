[package]
name = "wayback_rpki"
version = "0.1.0"
edition = "2021"
publish = false

[dependencies]
anyhow = "*"
axum = "*"
chrono = "=0.4.45"
clap = { version = "*", features = ["derive"] }
dotenvy = "*"
indicatif = "*"
ipnet = "=2.12.2"
num_cpus = "*"
oneio = { version = "=0.26.1", features = ["s3"] }
rayon = "*"
regex = "*"
serde = { version = "*", features = ["derive"] }
serde_json = "*"
tabled = "*"
tokio = { version = "*", features = ["full"] }
tower-http = { version = "*", features = ["cors"] }
tracing = "*"
tracing-subscriber = "*"
