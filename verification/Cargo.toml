[package]
name = "cluster_validation"
version = "0.1.0"
edition = "2021"
publish = false

[dependencies]
rand = "=0.9.5"
csv = "=1.4.0"
linfa = "=0.8.1"
linfa-clustering = "=0.8.1"
linfa-nn = "=0.8.1"
linfa-reduction = "=0.8.1"
ndarray = "=0.16.1"
plotters = { version = "=0.3.7", default-features = false, features = ["svg_backend", "line_series", "point_series"] }
statrs = "=0.19.1"
strum = "=0.28.0"
strum_macros = "=0.28.0"
