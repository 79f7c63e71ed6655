[package]
name = "search_agents"
version = "0.1.0"
edition = "2021"

[dependencies]
orx-priority-queue = "1"
rand = "0.8"
