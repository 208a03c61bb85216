//! Decision core of a peer-to-peer node: the handshake message, its wire form, and the
//! orchestrator that turns network events and timer ticks into commands.

pub mod handshake;
pub mod orchestrator;
pub mod wire;
