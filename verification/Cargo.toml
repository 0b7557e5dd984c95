[package]
name = "session_wrapper"
version = "0.1.0"
edition = "2021"
publish = false

[dependencies]
sha2 = "=0.10.9"
serde = { version = "=1.0.229", features = ["derive"] }
serde_json = "=1.0.154"
serde_yaml_ng = "=0.10.0"
toml = "=1.1.8"
figment = { version = "=0.10.19", features = ["toml"] }
thiserror = "=2.0.21"
tracing = "=0.1.44"
clap = { version = "=4.6.7", features = ["derive"] }
clap_complete = "4"
clap_mangen = "*"
rustix = { version = "=1.1.6", features = ["process", "termios", "fs"] }
