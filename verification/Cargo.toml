[package]
name = "netlabs"
version = "0.1.0"
edition = "2021"
publish = false

[dependencies]
httparse = "1"
regex = "1"
base64 = "*"
chrono = { version = "0.4", default-features = false, features = ["std", "clock"] }
pnet_packet = "*"
anyhow = "1"
tokio = { version = "1", features = ["full"] }
socket2 = { version = "*", features = ["all"] }
rand = "*"
ctrlc = "*"
if-addrs = "*"
lettre = { version = "*", default-features = false, features = ["builder", "smtp-transport", "tokio1"] }
mime = "*"
async-trait = "*"
