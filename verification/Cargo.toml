[package]
name = "nonvolatile"
version = "0.1.0"
edition = "2021"
publish = false

[dependencies]
rand = "*"
sysinfo = "*"
serde = { version = "*", features = ["derive"] }
serde_yaml = "*"
whoami = "*"
fs_util = "*"
generic_error = "*"
