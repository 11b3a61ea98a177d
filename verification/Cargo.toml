[package]
name = "fase"
version = "0.1.0"
edition = "2021"
publish = false

[dependencies]
sha2 = "*"
regex = "*"
cel = "*"
cron = "*"
chrono = "*"
serde = { version = "*", features = ["derive"] }
serde_json = "*"
serde_yml = "*"
k8s-openapi = { version = "*", features = ["latest"] }
kube = { version = "*", default-features = false, features = ["client", "derive", "rustls-tls"] }
schemars = "*"
tokio = { version = "*", features = ["rt-multi-thread", "macros", "time"] }
tracing = "*"
tracing-subscriber = "*"
clap = { version = "*", features = ["derive"] }
object_store = { version = "*", features = ["aws"] }
tar = "*"
reqwest = { version = "*", default-features = false, features = ["json", "rustls-tls"] }
lasso = { version = "*", features = ["multi-threaded"] }
url = "*"
zstd = "*"
