[package]
name = "league_client"
version = "0.1.0"
edition = "2021"
publish = false

[dependencies]
base64 = "*"
flume = "*"
futures-util = { version = "*", features = ["sink"] }
native-tls = "*"
reqwest = "*"
tokio = { version = "*", features = ["rt", "rt-multi-thread", "sync", "net", "macros", "time"] }
tokio-native-tls = "*"
tokio-tungstenite = "*"
tracing = "*"
tungstenite = "*"
