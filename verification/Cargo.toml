[package]
name = "subset_digest"
version = "0.1.0"
edition = "2021"
publish = false

[dependencies]
siphasher = "*"
djb_hash = "*"
rand = "0.8"
bloom = "0.3.2"
clap = "4"
env_logger = "*"
log = "*"
hex = "*"
pcap-parser = "*"
ssh2 = "*"
