[package]
name = "quantum_circuit_wars"
version = "0.1.0"
edition = "2021"
publish = false
