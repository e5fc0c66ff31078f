[package]
name = "expr_fold"
version = "0.1.0"
edition = "2021"
publish = false

[dependencies]
tiny_ecs = "*"
