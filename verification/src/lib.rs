//! Leaderless membership consensus: per-shard ledgers of membership events
//! that become binding once a strict majority of the resulting membership
//! has voted for them.

pub mod block;
pub mod chain;
pub mod generate;
pub mod message;
pub mod name;
pub mod node;
pub mod params;
pub mod routing_table;
