[package]
name = "routing_project"
version = "0.1.0"
edition = "2021"
publish = false

[dependencies]
aes = "=0.8.4"
cbc = { version = "=0.1.2", features = ["alloc"] }
cipher = "=0.4.4"
rand = "=0.8.8"
pnet = "=0.34.0"
petgraph = "=0.6.5"
uuid = { version = "=1.29.0", features = ["v4"] }
serde = { version = "=1.0.229", features = ["derive"] }
serde_json = "=1.0.154"
tokio = { version = "=1.54.1", features = ["full"] }
toml = "=0.8.23"
hostname = "=0.3.1"
base64 = "=0.13.1"
net-route = "=0.4.6"
rtnetlink = "=0.14.1"
futures = "=0.3.34"
env_logger = "=0.10.2"
log = "=0.4.35"
lazy_static = "=1.5.1"
bincode = "=1.3.3"
