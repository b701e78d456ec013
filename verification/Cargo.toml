[package]
name = "stabilize"
version = "1.0.0"
edition = "2021"
publish = false

[dependencies]
anyhow = "1"
bytes = "0.5"
futures = "0.3"
log = "0.4"
num = "0.3"
pretty_env_logger = "0.4"
quinn = "0.6"
rand = "0.7"
rcgen = "0.8"
rustls = { version = "0.17", features = ["dangerous_configuration"] }
serde = { version = "1", features = ["derive"] }
serde_json = "1"
structopt = "0.3"
tokio = { version = "0.2", features = ["full"] }
tokio-util = { version = "0.3", features = ["codec"] }
toml = "0.5"
webpki = "0.21"

[dev-dependencies]
tokio-test = "0.2"
