[package]
name = "negweight"
version = "0.1.0"
edition = "2021"
publish = false

[dependencies]
array-init = "2"
ez-bitset = "*"
fxhash = "0.2"
num = "0.4"
rand = "0.8"
rand_distr = "0.4"
rand_pcg = "0.3"
rayon = "1"
serde = { version = "1", features = ["derive"] }
serde_json = "1"
structopt = "0.3"
