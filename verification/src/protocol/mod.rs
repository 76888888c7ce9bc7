//! The wire protocol: packets, the handshake, commands and result sets.

pub mod command;
pub mod frame;
pub mod handshake;
pub mod layout;
pub mod lenenc;
pub mod resultset;
