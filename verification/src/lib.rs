//! Lists the live accounts and storage slots of an Ethereum state, writes and checks files of
//! their preimages, and summarises what the state holds.

pub mod account_laws;
pub mod account_stats;
pub mod byte_map;
pub mod bytes;
pub mod commands;
pub mod frequency;
pub mod frequency_laws;
pub mod frequency_operations;
pub mod hashing;
pub mod iterators;
pub mod preimage_laws;
pub mod preimage_operations;
pub mod preimages;
pub mod report_operations;
pub mod rounding;
pub mod stats;
pub mod stats_laws;
pub mod text;
