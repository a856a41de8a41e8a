[package]
name = "cyfs_gateway"
version = "0.1.0"
edition = "2021"
publish = false

[dependencies]
shlex = "*"
regex = "*"
http-types = { version = "*", default-features = false }
serde_json = "*"
toml = "*"
xmltree = "*"
nom = "*"
async-trait = "*"
async-recursion = "*"
