[package]
name = "als_recommender"
version = "0.1.0"
edition = "2021"
publish = false

[dependencies]
async-trait = "=0.1.92"
chrono-tz = "=0.10.4"
dotenv = "=0.15.0"
env_logger = "=0.11.11"
futures = "=0.3.34"
lazy_static = "=1.5.1"
log = "=0.4.34"
ndarray = "=0.15.6"
ndarray-linalg = "=0.16.0"
ndarray-rand = "=0.14.0"
notify = "=8.2.0"
percent-encoding = "=2.3.2"
rayon = "=1.12.0"
rsfbclient = { version = "=0.29.0", default-features = false, features = ["pure_rust"] }
rsfbclient-rust = "=0.29.0"
serde = { version = "=1.0.229", features = ["derive"] }
serde_json = "=1.0.154"
tiberius = "=0.12.3"
tokio = { version = "=1.54.1", features = ["full"] }
tokio-cron-scheduler = "=0.15.1"
tokio-util = { version = "=0.7.20", features = ["compat"] }
warp = "=0.3.7"
