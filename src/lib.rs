//! A peer-to-peer ledger: a Kademlia-style overlay with proof-of-work admission
//! and a proof-of-work blockchain whose blocks travel through the overlay.

pub mod utils;
pub mod hash_func;
pub mod secret_key;
pub mod signature;
pub mod node_id;
pub mod ticket;
pub mod node;
pub mod k_bucket;
pub mod routing_table;
pub mod encoding;
pub mod transaction;
pub mod merkle;
pub mod block_header;
pub mod block;
pub mod transaction_pool;
pub mod block_builder;
pub mod chain;
pub mod data;
pub mod store;
pub mod dht;
pub mod lookup;
pub mod network_node;
pub mod codec;
pub mod cli;
