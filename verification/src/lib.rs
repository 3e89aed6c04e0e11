//! Verified core of a maroon node: key ranges, transaction offsets, consensus
//! offsets, epochs and the decisions of the node's event loop.

pub mod range_key;
pub mod transaction;
pub mod value;
pub mod peer;
pub mod offsets;
pub mod delays;
pub mod epoch;
pub mod app;
pub mod network;
pub mod linearizer;
pub mod coordinator;
