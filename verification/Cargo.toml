[package]
name = "mindmap"
version = "0.1.0"
edition = "2021"
publish = false

[dependencies]
rust-stemmers = "=1.2.0"
stop-words = "=0.10.1"
keyword_extraction = "=1.5.0"
serde = { version = "*", features = ["derive"] }
serde_json = "*"
reqwest = { version = "*", default-features = false, features = ["json"] }
tokio = { version = "*", features = ["macros", "rt-multi-thread"] }
actix-web = "*"
actix-cors = "*"
futures = "*"
bytes = "*"
uuid = { version = "*", features = ["v4", "v5"] }
log = "*"
env_logger = "*"
base64 = "*"
regex = "*"
chrono = "*"
dom_query = "*"
dom_smoothie = "*"
ndarray = "0.16"
linfa = "=0.8.1"
linfa-reduction = "=0.8.1"
