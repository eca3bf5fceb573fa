[package]
name = "zmq_service"
version = "0.1.0"
edition = "2021"
publish = false

[dependencies]
protobuf = "3"
zmq = "0.10"
