[package]
name = "nested_tasks_prettier"
version = "0.1.0"
edition = "2021"
publish = false

[dependencies]
seahorse = "*"
