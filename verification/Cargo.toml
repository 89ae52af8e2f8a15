[package]
name = "ovreplay"
version = "0.1.0"
edition = "2021"
publish = false

[dependencies]
opencl-sys = { version = "=0.6.5", features = ["static", "CL_VERSION_1_1", "CL_VERSION_1_2", "CL_VERSION_2_0"] }
thiserror = "=2.0.21"
