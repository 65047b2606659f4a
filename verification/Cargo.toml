[package]
name = "systemd_traefik_configuration_provider"
version = "0.1.0"
edition = "2021"
publish = false

[dependencies]
anyhow = "1"
async-trait = "0.1"
clap = { version = "4", features = ["derive", "env"] }
clap-verbosity-flag = "3"
deunicode = "1"
flexi_logger = { version = "*", features = ["kv"] }
futures = "0.3"
log = { version = "0.4", features = ["kv"] }
regex = "1"
serde_yaml = "0.9"
systemd-lsp = "*"
thiserror = "2"
tokio = { version = "1", features = ["full"] }
zbus = { version = "5", default-features = false, features = ["tokio"] }
