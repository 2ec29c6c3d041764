[package]
name = "icfp2019"
version = "0.1.0"
edition = "2021"
publish = false

[dependencies]
failure = "0.1"
lazy_static = "1"
log = "0.4"
loggerv = "0.7"
rayon = "1"
regex = "1"
serde = "1"
serde_derive = "1"
structopt = "0.2"
