[package]
name = "s3_transfer"
version = "0.1.0"
edition = "2021"
publish = false

[dependencies]
sha2 = "=0.10.9"
hex = "=0.4.3"
http = "=1.5.0"
wildmatch = "=2.7.0"
anyhow = "=1.0.104"
aws-config = { version = "=1.13.0", features = ["behavior-version-latest"] }
aws-credential-types = { version = "=1.3.1", features = ["hardcoded-credentials"] }
aws-sdk-s3 = "=1.157.0"
bytes = "=1.12.1"
clap = { version = "=4.6.7", features = ["derive"] }
config = { version = "=0.14.1", default-features = false, features = ["yaml"] }
serde = { version = "=1.0.229", features = ["derive"] }
mimetype-detector = "=0.3.13"
time = { version = "=0.3.55", features = ["formatting", "parsing", "local-offset", "macros"] }
tokio = { version = "=1.54.1", features = ["full"] }
tracing = "=0.1.44"
tracing-subscriber = { version = "=0.3.23", features = ["fmt", "time", "local-time"] }
