[package]
name = "search_posts"
version = "0.1.0"
edition = "2021"
publish = false

[dependencies]
unicode-segmentation = "*"
serde_json = "*"
walkdir = "*"
rayon = "*"
num_cpus = "*"
tempfile = "*"
log = "*"
stderrlog = "*"
structopt = "*"
