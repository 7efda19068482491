[package]
name = "kernel_collector"
version = "0.1.0"
edition = "2021"

[dependencies]
rustc_data_structures = "0.1.2"
