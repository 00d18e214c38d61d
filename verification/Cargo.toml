[package]
name = "ecs_core"
version = "0.1.0"
edition = "2021"
publish = false

[dependencies]
vec_map = "0.8"
crossbeam = "0.8"
thiserror = "1"
tokio = { version = "1", features = ["rt", "rt-multi-thread", "sync"] }
