//! A price-time matching venue with multi-tier settlement: order books and fees, balances and
//! settlement batches, a trading node that survives restarts, the chains it settles on, and a
//! simulation of agents that trade on a mesh of such books.

pub mod accounts;
pub mod actions;
pub mod agents;
pub mod assoc;
pub mod batcher;
pub mod batcher_laws;
pub mod batcher_room;
pub mod bn254;
pub mod book;
pub mod book_laws;
pub mod bytes;
pub mod chains;
mod clock;
pub mod config;
pub mod fees;
pub mod flood;
pub mod groth16;
pub mod heartbeat;
pub mod hexes;
pub mod ledger;
pub mod mesh;
pub mod queries;
mod random;
pub mod receipts;
pub mod reconcile;
pub mod recovery;
pub mod recovery_laws;
pub mod registry;
pub mod scan;
pub mod server;
pub mod settlement;
pub mod sim_matches;
pub mod sim_reports;
pub mod sim_state;
pub mod sim_types;
pub mod simulation;
pub mod snapshot;
pub mod store;
pub mod store_laws;
pub mod sync;
pub mod text;
pub mod types;
pub mod vk;
pub mod wallet;
