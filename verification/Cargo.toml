[package]
name = "envi"
version = "0.1.0"
edition = "2021"
publish = false

[dependencies]
proj4rs = "=0.3.0"
ndarray = "=0.16.1"
num-complex = "=0.4.6"
thiserror = "=2.0.21"
