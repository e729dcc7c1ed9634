//! Node-level rules of a Shell chain client.

pub mod certificate;
pub mod chain;
pub mod dev;
pub mod error;
pub mod finality;
pub mod fork;
pub mod limits;
pub mod node;
pub mod primitives;
pub mod prover;
pub mod pruning;
pub mod quorum;
pub mod reorg;
pub mod retention;
pub mod rewards;
pub mod signature;
pub mod stark;
pub mod sync;
pub mod table;
pub mod text;
pub mod trie;
pub mod votes;
