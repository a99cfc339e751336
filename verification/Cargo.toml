[package]
name = "agent_mux"
version = "0.1.0"
edition = "2021"
publish = false

[dependencies]
clap = { version = "4", features = ["derive"] }
env_logger = "0.11"
futures = "0.3"
log = "0.4"
service-binding = "3"
ssh-agent-lib = "0.5"
ssh-key = "0.6"
tokio = { version = "1", features = ["macros", "rt-multi-thread", "net"] }
