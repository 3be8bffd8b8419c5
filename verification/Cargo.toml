[package]
name = "asr-core"
version = "0.1.0"
edition = "2021"
publish = false

[dependencies]
serde = { version = "1", features = ["derive"] }
serde_json = "1"
thiserror = "1"
async-trait = "0.1"
tokio = { version = "1", features = ["rt-multi-thread", "sync", "time", "macros", "process", "net", "io-util"] }
ureq = "2"
rubato = "0.16"
symphonia = { version = "0.5", default-features = false, features = ["wav", "pcm"] }
