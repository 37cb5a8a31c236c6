//! The protocol logic of a Hysteria2 outbound proxy.

pub mod adapter;
pub mod auth;
pub mod bandwidth;
pub mod double;
pub mod failure;
pub mod float;
pub mod handshake;
pub mod number;
pub mod obfs;
pub mod roots;
pub mod tcp;
pub mod text;
pub mod udp;
pub mod varint;
