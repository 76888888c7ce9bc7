//! A small relational database: its storage engine, SQL evaluation, write-ahead
//! log and wire protocol, each stated by contracts and proved.

pub mod client;
pub mod config;
pub mod console;
pub mod engine;
pub mod exchange;
pub mod float;
pub mod le;
pub mod model;
pub mod names;
pub mod order;
pub mod protocol;
pub mod repl;
pub mod reply;
pub mod server;
pub mod sql;
pub mod text;
pub mod words;
