[package]
name = "plonky2_gpu"
version = "0.1.0"
edition = "2021"

[dependencies]
log = "=0.4.35"
once_cell = "=1.21.4"
zeknox = { version = "=1.0.1", default-features = false, features = ["cuda", "no_cuda"] }
