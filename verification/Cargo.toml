[package]
name = "true_canvas_core"
version = "0.1.0"
edition = "2021"
publish = false

[dependencies]
ark-ed-on-bls12-381 = "0.3"
ark-ff = "0.3"
ark-sponge = "0.3"
rand = "0.8"
serde = { version = "1", features = ["derive"] }
serde_json = "1"

[dev-dependencies]
ark-serialize = "0.3"
