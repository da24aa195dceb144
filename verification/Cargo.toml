[package]
name = "remote_agent"
version = "0.1.0"
edition = "2021"
publish = false

[dependencies]
clap = { version = "4", features = ["derive"] }
env_logger = "*"
libc = "0.2"
log = "0.4"
thrift = "*"
tungstenite = { version = "*", features = ["rustls-tls-webpki-roots"] }
ureq = "3"
