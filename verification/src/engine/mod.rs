//! The storage engine.

pub mod ahead;
pub mod amounts;
pub mod answers;
pub mod catalog;
pub mod change;
pub mod codec;
pub mod compare;
pub mod conditions;
pub mod definitions;
pub mod durability;
pub mod effects;
pub mod eval;
pub mod executor;
pub mod index;
pub mod insert;
pub mod laws;
pub mod layout;
pub mod maintain;
pub mod mirror;
pub mod persistence;
pub mod query;
pub mod recovery;
pub mod refusals;
pub mod schema;
pub mod storage;
pub mod time;
pub mod twins;
pub mod types;
pub mod upkeep;
pub mod wal;
