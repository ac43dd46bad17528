[package]
name = "resp_kv"
version = "0.1.0"
edition = "2021"
publish = false

[dependencies]
atoi = "=3.1.0"
itoa = "=1.0.18"
memchr = "=2.8.3"
bytes = "=1.12.1"
log = "=0.4.34"
env_logger = "=0.11.11"
libc = "=0.2.190"
futures-util = { version = "=0.3.34", features = ["sink"] }
tokio = { version = "=1.53.2", features = ["full"] }
tokio-util = { version = "=0.7.19", features = ["codec", "time"] }
