//! The logic of `penoxy`, a TCP proxy that tunnels connections through QUIC.

pub mod arrival;
pub mod config;
pub mod delivery;
pub mod error;
pub mod relay;
pub mod rotation;
pub mod service;
pub mod session;
pub mod stream;
pub mod text;
pub mod tls;
pub mod wire;
pub mod yaml;
