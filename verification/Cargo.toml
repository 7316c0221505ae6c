[package]
name = "mail_trace"
version = "0.1.0"
edition = "2021"
publish = false

[dependencies]
anyhow = "=1.0.104"
console = "=0.15.11"
glob = "=0.3.4"
indicatif = "=0.15.0"
rayon = "=1.12.0"
structopt = "=0.3.26"

[dev-dependencies]
nom = "7.1"
