[package]
name = "nix_weather"
version = "0.1.0"
edition = "2021"
publish = false

[dependencies]
url = "2"
futures = "0.3"
tokio = { version = "1", features = ["rt-multi-thread", "macros", "time"] }
reqwest = { version = "0.11", default-features = false, features = ["rustls-tls"] }
structopt = "0.3"
log = "0.4"
stderrlog = "0.5"
number_prefix = "0.4"
serde = { version = "1", features = ["derive"] }
serde_json = "1"
