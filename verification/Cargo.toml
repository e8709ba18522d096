[package]
name = "moq_media"
version = "0.1.0"
edition = "2021"
publish = false

[dependencies]
async-trait = "=0.1.92"
bytes = "=1.12.1"
cpal = "=0.18.2"
fixed-resample = "=0.13.0"
futures = "=0.3.34"
object_store = { version = "=0.14.2", default-features = false, features = ["fs"] }
percent-encoding = "=2.3.2"
quick_cache = "=0.7.0"
rand = "=0.10.3"
ringbuf = "=0.6.0"
serde = { version = "=1.0.229", features = ["derive"] }
serde_json = "=1.0.154"
sonora = "=0.2.0"
symphonia-codec-aac = "=0.6.1"
symphonia-core = "=0.6.1"
thiserror = "=2.0.21"
tokio = { version = "=1.54.1", features = ["macros", "rt", "sync", "time"] }
tracing = "=0.1.44"
unsafe-libopus = "=0.2.0"
