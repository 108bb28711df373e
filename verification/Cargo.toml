[package]
name = "greetd_session"
version = "0.1.0"
edition = "2021"
publish = false

[dependencies]
async-trait = "=0.1.92"
nix = { version = "=0.29.0", features = ["fs", "process", "signal"] }
tokio = { version = "=1.54.1", features = ["net", "rt"] }

[dev-dependencies]
serde_json = "=1.0.154"
