[package]
name = "tracetree"
version = "0.1.0"
edition = "2021"
publish = false

[dependencies]
chrono = "=0.4.45"
clap = "=4.6.7"
libc = "=0.2.190"
nix = { version = "=0.31.3", features = ["ptrace", "signal", "process"] }
spawn-ptrace = "=0.1.2"

[dev-dependencies]
serde_json = "=1.0.151"
