[package]
name = "compaction_planner"
version = "0.1.0"
edition = "2021"
publish = false

[dependencies]
arrow = { version = "*", default-features = false }
async-trait = "0.1"
itertools = "0.11"
tracing = "0.1"

[dev-dependencies]
rand = "0.8"
