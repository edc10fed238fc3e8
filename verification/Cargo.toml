[package]
name = "cluster_report"
version = "0.1.0"
edition = "2021"
publish = false

[dependencies]
csv = "=1.4.0"
ndarray = "=0.17.2"
petal-decomposition = "=0.9.0"
hdbscan = "=0.12.0"
image = "=0.24.9"
palette = "=0.6.1"
nanorand = "=0.7.0"
wcloud = "=0.1.0"
serde_json = "=1.0.151"
regex = "=1.13.1"
bytes = "=1.8.0"
