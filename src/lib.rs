//! Batch matching engine of a UTXO-style limit order book.
//!
//! The engine takes the current batch index, the committed Merkle root of the
//! standing UTXO set, the standing UTXOs with their inclusion proofs and the new
//! orders of the batch, and produces the fills, the new UTXO set and its root.
pub mod types;
pub mod bytes;
pub mod utxo;
pub mod merkle;
pub mod book;
pub mod matching;
pub mod driver;
pub mod laws;
pub mod wire;

pub use types::{Side, Order, Utxo, UtxoWithProof, Fill, BatchInput, BatchOutput, BatchError, StateCommitment, Journal};
pub use merkle::{UtxoMerkleTree, compute_utxo_merkle_root, build_utxo_merkle_tree, generate_utxo_proof};
pub use matching::match_orders;
pub use driver::{check_state, process_batch, commit_batch};
