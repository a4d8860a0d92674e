[package]
name = "rjvm_vm"
version = "0.1.0"
edition = "2021"
publish = false

[dependencies]
indexmap = "2"
zip = { version = "*", default-features = false, features = ["deflate"] }
clap = { version = "4", features = ["derive"] }
env_logger = "*"
log = "*"
bitfield-struct = "*"
typed-arena = "*"
result = "*"
thiserror = "*"
