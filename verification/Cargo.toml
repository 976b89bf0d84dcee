[package]
name = "echo"
version = "0.1.0"
edition = "2021"
publish = false

[dependencies]
rand = "*"
clap = { version = "*", features = ["derive"] }
mio = { version = "*", features = ["os-poll", "net"] }
rustls = { version = "*", default-features = false, features = ["ring", "std"] }
rustls-pemfile = "*"
slab = "*"
