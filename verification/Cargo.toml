[package]
name = "aosc_packages"
version = "0.1.0"
edition = "2021"
publish = false

[dependencies]
liblzma = "*"
reqwest = { version = "*", default-features = false, features = ["blocking"] }
tokio = { version = "*", default-features = false, features = ["fs", "io-util", "rt"] }
futures = "*"
async-compression = { version = "*", default-features = false, features = ["futures-io", "xz"] }
tokio-util = { version = "*", default-features = false, features = ["compat", "io"] }
thiserror = "*"
