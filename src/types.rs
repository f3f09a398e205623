//! The value types of the order book.
use vstd::prelude::*;

verus! {

/// Side of an order. On the wire `Buy` is 0 and `Sell` is 1.
#[derive(Clone, Copy, Debug, PartialEq, Eq, Structural)]
pub enum Side {
    Buy,
    Sell,
}

/// A limit order.
#[derive(Clone, Copy, Debug, PartialEq, Eq)]
pub struct Order {
    /// Buy or Sell.
    pub side: Side,
    /// Price in quote asset per unit of base asset.
    pub price: u64,
    /// Quantity of the base asset.
    pub quantity: u64,
    /// Owner's 20-byte account address.
    pub owner: [u8; 20],
    /// Unique nonce: time priority key and part of the UTXO id.
    pub nonce: u64,
    /// Last batch (inclusive) in which the order is valid.
    pub expiry_batch: u64,
}

/// A standing order, content-addressed by the hash of its fields.
#[derive(Clone, Copy, Debug, PartialEq, Eq)]
pub struct Utxo {
    /// Identifier: the hash of `order`.
    pub id: [u8; 32],
    /// The order data.
    pub order: Order,
}

/// A standing UTXO with its inclusion proof against the committed root.
#[derive(Clone, Debug, PartialEq, Eq)]
pub struct UtxoWithProof {
    pub utxo: Utxo,
    /// Sibling hashes on the path from the leaf to the root.
    pub proof_hashes: Vec<[u8; 32]>,
    /// Position of the UTXO among the committed leaves.
    pub leaf_index: usize,
}

/// A matched trade between a maker (older order) and a taker.
#[derive(Clone, Copy, Debug, PartialEq, Eq)]
pub struct Fill {
    pub maker_utxo_id: [u8; 32],
    pub taker_utxo_id: [u8; 32],
    /// Execution price: the maker's price.
    pub price: u64,
    /// Quantity of the base asset traded.
    pub quantity: u64,
    /// Maker's address.
    pub maker: [u8; 20],
    /// Taker's address.
    pub taker: [u8; 20],
    /// Whether the maker is the selling side.
    pub maker_is_seller: bool,
}

/// Input of one batch.
#[derive(Clone, Debug, PartialEq, Eq)]
pub struct BatchInput {
    /// Current batch index.
    pub batch_index: u64,
    /// Committed Merkle root of the standing UTXO set.
    pub utxo_merkle_root: [u8; 32],
    /// Standing UTXOs with their inclusion proofs.
    pub existing_utxos_with_proofs: Vec<UtxoWithProof>,
    /// Orders submitted in this batch.
    pub new_orders: Vec<Order>,
}

/// Result of one batch.
#[derive(Clone, Debug, PartialEq, Eq)]
pub struct BatchOutput {
    pub batch_index: u64,
    pub fills: Vec<Fill>,
    /// Residual orders, buy book first, then sell book, each in book order.
    pub new_utxos: Vec<Utxo>,
    /// Ids of the book entries removed by expiry or by a full fill, and the
    /// old ids of standing UTXOs that were filled in part.
    pub consumed_utxo_ids: Vec<[u8; 32]>,
    /// Merkle root over the ids of `new_utxos`, all zero when there are none.
    pub new_utxo_merkle_root: [u8; 32],
}

/// The commitment to the chain state that a batch was checked against, as
/// its three 32-byte words (id, digest, configuration id). The library treats
/// it as opaque.
#[derive(Clone, Copy, Debug, PartialEq, Eq)]
pub struct StateCommitment {
    pub id: [u8; 32],
    pub digest: [u8; 32],
    pub config_id: [u8; 32],
}

/// What a batch commits for the on-chain verifier: the state commitment
/// followed by the fields of the batch output.
#[derive(Clone, Debug, PartialEq, Eq)]
pub struct Journal {
    pub state_commitment: StateCommitment,
    pub output: BatchOutput,
}

impl BatchOutput {
    /// Wraps the output with the state commitment it was produced under.
    pub fn to_journal(self, commitment: StateCommitment) -> (r: Journal)
        ensures
            r.state_commitment == commitment,
            r.output == self,
    {
        Journal { state_commitment: commitment, output: self }
    }
}

/// Wire value of a side.
pub open spec fn side_byte(s: Side) -> u8 {
    match s {
        Side::Buy => 0,
        Side::Sell => 1,
    }
}

impl Side {
    /// Wire value of the side: 0 for `Buy`, 1 for `Sell`.
    pub fn to_byte(self) -> (r: u8)
        ensures
            r == side_byte(self),
    {
        match self {
            Side::Buy => 0,
            Side::Sell => 1,
        }
    }

    /// Side named by a text label: "buy", "Buy" or "BUY", and "sell", "Sell"
    /// or "SELL"; `None` for anything else.
    pub fn from_label(label: &[u8]) -> (r: Option<Side>)
        ensures
            r == (if label@ == seq![98u8, 117, 121] || label@ == seq![66u8, 117, 121] || label@
                == seq![66u8, 85, 89] {
                Some(Side::Buy)
            } else if label@ == seq![115u8, 101, 108, 108] || label@ == seq![83u8, 101, 108, 108]
                || label@ == seq![83u8, 69, 76, 76] {
                Some(Side::Sell)
            } else {
                None::<Side>
            }),
    {
        if label.len() == 3 {
            let (a, b, c) = (label[0], label[1], label[2]);
            if (a == 98 && b == 117 && c == 121) || (a == 66 && b == 117 && c == 121) || (a == 66
                && b == 85 && c == 89) {
                assert(label@ == seq![98u8, 117, 121] || label@ == seq![66u8, 117, 121] || label@
                    == seq![66u8, 85, 89]) by {
                    if a == 98 && b == 117 && c == 121 {
                        assert(label@ =~= seq![98u8, 117, 121]);
                    } else if a == 66 && b == 117 && c == 121 {
                        assert(label@ =~= seq![66u8, 117, 121]);
                    } else {
                        assert(label@ =~= seq![66u8, 85, 89]);
                    }
                }
                return Some(Side::Buy);
            }
            assert(label@[0] == a && label@[1] == b && label@[2] == c);
            return None;
        }
        if label.len() == 4 {
            let (a, b, c, d) = (label[0], label[1], label[2], label[3]);
            if (a == 115 && b == 101 && c == 108 && d == 108) || (a == 83 && b == 101 && c == 108
                && d == 108) || (a == 83 && b == 69 && c == 76 && d == 76) {
                assert(label@ == seq![115u8, 101, 108, 108] || label@ == seq![83u8, 101, 108, 108]
                    || label@ == seq![83u8, 69, 76, 76]) by {
                    if a == 115 {
                        assert(label@ =~= seq![115u8, 101, 108, 108]);
                    } else if b == 101 {
                        assert(label@ =~= seq![83u8, 101, 108, 108]);
                    } else {
                        assert(label@ =~= seq![83u8, 69, 76, 76]);
                    }
                }
                return Some(Side::Sell);
            }
            assert(label@[0] == a && label@[1] == b && label@[2] == c && label@[3] == d);
            return None;
        }
        None
    }

    /// Side of a wire value; `None` for any value other than 0 and 1.
    pub fn from_byte(b: u8) -> (r: Option<Side>)
        ensures
            r == (if b == 0 {
                Some(Side::Buy)
            } else if b == 1 {
                Some(Side::Sell)
            } else {
                None::<Side>
            }),
    {
        if b == 0 {
            Some(Side::Buy)
        } else if b == 1 {
            Some(Side::Sell)
        } else {
            None
        }
    }
}

} // verus!

verus! {

/// Why a batch is abandoned. Every kind is fatal for the whole batch.
#[derive(Clone, Copy, Debug, PartialEq, Eq, Structural)]
pub enum BatchError {
    /// Malformed wire bytes, an unknown side value, or a structural mismatch.
    DecodeError,
    /// The input's batch index or prior root disagrees with the chain.
    StateMismatch,
    /// The standing UTXO at `index` fails its inclusion proof.
    ProofInvalid { index: usize },
    /// The order at `index` (standing UTXOs first, then new orders) has a zero
    /// quantity or repeats the nonce of an earlier order.
    InputInvariantViolated { index: usize },
}

} // verus!
