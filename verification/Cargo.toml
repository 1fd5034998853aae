[package]
name = "juvix-cairo-vm"
version = "0.1.0"
edition = "2021"
publish = false

[dependencies]
cairo-vm = "=3.2.0"
serde_json = { version = "=1.0.154", features = ["arbitrary_precision", "preserve_order"] }
ark-std = { version = "=0.4.0", features = ["getrandom"] }
clap = { version = "=4.6.7", features = ["derive"] }
thiserror = "=1.0.69"

[dev-dependencies]
num-bigint = "=0.4.8"
