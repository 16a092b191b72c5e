//! Block synchronization chain: the in-memory view of every block a peer knows
//! about, from the moment a remote peer announces it until it is committed to
//! the block store.
//!
//! A block is scheduled for requesting, then requested from peers, then
//! verified, then stored. [`Chain`] holds the three queues of digests, the
//! headers of the queued blocks and the store, and answers what the driver of
//! the synchronization asks: the state of a block, the best block, how an
//! inventory relates to the known blocks, and the block locator.
//!
//! The module `model` says what a chain holds and what each operation makes
//! of it; `laws` states what follows for every chain.

pub mod best_headers_chain;
pub mod block;
pub mod chain;
pub mod descendants;
pub mod digest_map;
pub mod digest_set;
pub mod hash;
pub mod hash_queue;
pub mod laws;
pub mod locator;
pub mod memory_store;
pub mod model;
pub mod store;

pub use best_headers_chain::BestHeadersChain;
pub use block::{BestBlock, Block, BlockHeader, BlockRef};
pub use chain::Chain;
pub use hash::H256;
pub use hash_queue::{HashPosition, HashQueue, HashQueueChain};
pub use memory_store::MemoryStore;
pub use model::{BlockState, Edge, HeadersIntersection, Information, Landmark};
pub use store::{Store, StoreError};
