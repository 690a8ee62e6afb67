[package]
name = "hershey"
version = "0.1.0"
edition = "2021"
publish = false

[dependencies]
winit = { version = "0.29", default-features = false, features = ["x11", "rwh_06"] }
softbuffer = { version = "0.4", default-features = false, features = ["x11", "x11-dlopen"] }
