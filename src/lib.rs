//! A proof-of-work blockchain simulation: blocks and their canonical hashing, the per-node chain
//! with its balance index, the mempool of pending transactions, and the node's mining and
//! longest-chain consensus decisions.

pub mod block;
pub mod blockchain;
pub mod constants;
pub mod mempool;
pub mod node;
