[package]
name = "dfm"
version = "0.1.0"
edition = "2021"
publish = false

[dependencies]
anyhow = "1"
async-recursion = "1"
clap = { version = "4", features = ["derive"] }
clap_complete = "4"
colored = "2"
directories = "5"
futures = "0.3"
log = "0.4"
pretty_env_logger = "0.5"
terminal_size = "0.3"
tokio = { version = "1", features = ["fs", "rt", "macros"] }
