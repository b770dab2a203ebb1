[package]
name = "proots"
version = "0.1.0"
edition = "2021"
publish = false

[dependencies]
libipld = "*"
ipfs-api-backend-actix = "*"
actix-rt = "*"
futures = "*"
structopt = "*"
