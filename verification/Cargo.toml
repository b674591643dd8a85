[package]
name = "learn_fs"
version = "0.1.0"
edition = "2021"
publish = false

[dependencies]
fuse = "*"
libc = "*"
log = "*"
env_logger = "*"
openat = "*"
serde = { version = "*", features = ["derive"] }
chrono = "*"
base64 = "*"
select = "*"
reqwest = { version = "*", default-features = false, features = ["blocking", "cookies", "json", "multipart", "rustls-tls"] }
