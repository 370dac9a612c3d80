[package]
name = "iot_auth"
version = "0.1.0"
edition = "2021"
publish = false

[dependencies]
aes = "0.8"
cbc = "0.1"
cipher = "0.4"
hmac = "0.12"
sha2 = "0.10"
heapless = "0.8"
rand_core = "*"
smoltcp = "*"
virtio-drivers = "*"
