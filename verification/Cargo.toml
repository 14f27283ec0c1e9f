[package]
name = "config_watcher"
version = "0.1.0"
edition = "2021"
publish = false

[dependencies]
twox-hash = "*"
glob = "*"
log = "*"
thiserror = "*"
tokio = { version = "*", features = ["full"] }
futures = "*"
notify = "*"
notify-debouncer-full = "*"
walkdir = "*"
rumqttc = "*"
kube = { version = "*", features = ["client", "runtime"] }
k8s-openapi = { version = "*", features = ["latest"] }
