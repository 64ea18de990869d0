[package]
name = "trainsched"
version = "0.1.0"
edition = "2021"
publish = false

[dependencies]
chrono = "=0.4.45"
roxmltree = "=0.21.2"
serde = { version = "=1.0.229", features = ["derive"] }
serde_json = "=1.0.154"
structopt = "=0.3.26"
log = "=0.4.35"
pretty_env_logger = "=0.5.0"
hprof = "=0.1.3"
tinyvec = { version = "=1.13.3", features = ["alloc"] }
typed-index-collections = "=3.5.0"
duct = "=1.1.2"
rustsat = "=0.7.5"
rustsat-glucose = "=0.7.5"
grb = "=3.0.1"
