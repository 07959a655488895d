[package]
name = "renet2_netcode"
version = "0.1.0"
edition = "2021"
publish = false

[dependencies]
crossbeam = "=0.8.5"
tokio = { version = "=1.54.1", features = ["sync", "rt", "rt-multi-thread", "net", "time", "macros", "io-util"] }
urlencoding = "=2.1.3"
futures = "=0.3.34"
http = "=1.5.0"
url = "=2.5.8"
tungstenite = "=0.26.2"
tokio-tungstenite = "=0.26.2"
bytes = "=1.12.1"
anyhow = "=1.0.104"
log = "=0.4.35"
tokio-native-tls = "0.3"
tokio-rustls = { version = "0.26", default-features = false, features = ["ring"] }
