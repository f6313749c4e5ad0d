[package]
name = "fibcalc"
version = "0.1.0"
edition = "2021"
publish = false

[dependencies]
num-bigint = "0.4"
num-traits = "0.2"
serde = { version = "1", features = ["derive"] }
serde_json = "1"
clap = { version = "4", features = ["derive"] }
clap_complete = "4"
console = "0.15"
crossbeam-channel = "0.5"
parking_lot = "0.12"
rayon = "1"
tracing = "0.1"
sysinfo = "*"
thiserror = "2"
bumpalo = "3"
