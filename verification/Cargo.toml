[package]
name = "othello"
version = "0.1.0"
edition = "2021"
publish = false

[dependencies]
rand = "0.8"
rand_distr = "0.4"
anyhow = "1"
futures = "0.3"
indicatif = "0.17"
ndarray = "0.15"
ndarray-npy = "0.8"
tokio = { version = "1", features = ["macros", "rt-multi-thread"] }
tract-onnx = "*"
