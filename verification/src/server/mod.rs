//! The server's side of a connection.

pub mod connection;
pub mod session;
