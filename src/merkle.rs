//! The Merkle set over UTXO ids, computed by the `rs_merkle` crate with SHA-256.
use vstd::prelude::*;
use rs_merkle::algorithms::Sha256 as MerkleSha256;
use rs_merkle::{MerkleProof, MerkleTree};
use crate::types::{Utxo, UtxoWithProof};

verus! {

/// A Merkle tree of `rs_merkle` over 32-byte leaves, hashed with SHA-256.
// Held opaquely: Verus cannot resolve the `Hasher` bound of the generic
// `MerkleTree<T>` in a type declaration, so the tree sits in a private field.
#[verifier::external_body]
pub struct UtxoMerkleTree {
    tree: MerkleTree<MerkleSha256>,
}

/// The leaves that a tree was built over.
pub uninterp spec fn merkle_leaves_of(t: UtxoMerkleTree) -> Seq<Seq<u8>>;

/// Root of the tree over a non-empty sequence of leaves.
pub uninterp spec fn merkle_root_of(leaves: Seq<Seq<u8>>) -> Seq<u8>;

/// Sibling hashes that prove the leaf at `index` of `leaves`.
pub uninterp spec fn merkle_proof_of(leaves: Seq<Seq<u8>>, index: nat) -> Seq<Seq<u8>>;

/// Whether `proof` shows `leaf` at `index` of a tree of `total` leaves with root `root`.
pub uninterp spec fn merkle_verify_of(
    proof: Seq<Seq<u8>>,
    root: Seq<u8>,
    index: nat,
    leaf: Seq<u8>,
    total: nat,
) -> bool;

/// The byte strings of a sequence of 32-byte hashes.
pub open spec fn hashes_view(s: Seq<[u8; 32]>) -> Seq<Seq<u8>> {
    s.map_values(|h: [u8; 32]| h@)
}

/// The all-zero hash: the root of the empty set.
pub open spec fn zero_hash() -> Seq<u8> {
    Seq::new(32, |i: int| 0u8)
}

/// Root of the set over `leaves`: the all-zero hash for the empty set.
pub open spec fn set_root(leaves: Seq<Seq<u8>>) -> Seq<u8> {
    if leaves.len() == 0 {
        zero_hash()
    } else {
        merkle_root_of(leaves)
    }
}

/// Relies on rs_merkle::MerkleTree::from_leaves: the tree holds the given leaves.
#[verifier::external_body]
fn tree_from_leaves(leaves: &[[u8; 32]]) -> (r: UtxoMerkleTree)
    ensures
        merkle_leaves_of(r) == hashes_view(leaves@),
{
    UtxoMerkleTree { tree: MerkleTree::<MerkleSha256>::from_leaves(leaves) }
}

/// Relies on rs_merkle::MerkleTree::root: present for a tree with leaves.
#[verifier::external_body]
fn tree_root(t: &UtxoMerkleTree) -> (r: Option<[u8; 32]>)
    ensures
        merkle_leaves_of(*t).len() > 0 ==> r is Some,
        r matches Some(h) ==> h@ == merkle_root_of(merkle_leaves_of(*t)),
{
    t.tree.root()
}

/// Relies on rs_merkle::MerkleTree::proof: the sibling hashes for one leaf.
#[verifier::external_body]
fn tree_proof(t: &UtxoMerkleTree, index: usize) -> (r: Vec<[u8; 32]>)
    ensures
        hashes_view(r@) == merkle_proof_of(merkle_leaves_of(*t), index as nat),
{
    t.tree.proof(&[index]).proof_hashes().to_vec()
}

/// Relies on rs_merkle::MerkleProof::verify for a single leaf: whether the
/// proof rebuilds `root` from `leaf` at `index` in a tree of `total` leaves.
#[verifier::external_body]
fn proof_verify(
    proof: &Vec<[u8; 32]>,
    root: &[u8; 32],
    index: usize,
    leaf: &[u8; 32],
    total: usize,
) -> (r: bool)
    ensures
        r == merkle_verify_of(hashes_view(proof@), root@, index as nat, leaf@, total as nat),
{
    MerkleProof::<MerkleSha256>::new(proof.clone()).verify(*root, &[index], &[*leaf], total)
}

/// The all-zero hash.
pub fn zero_root() -> (r: [u8; 32])
    ensures
        r@ == zero_hash(),
{
    let r = [0u8; 32];
    assert(r@ =~= zero_hash());
    r
}

/// The ids of a sequence of UTXOs.
pub open spec fn utxo_ids(s: Seq<Utxo>) -> Seq<Seq<u8>> {
    s.map_values(|u: Utxo| u.id@)
}

/// Root of the set over the leaf hashes; the all-zero hash when there are none.
pub fn compute_utxo_merkle_root(utxo_ids: &[[u8; 32]]) -> (r: [u8; 32])
    ensures
        r@ == set_root(hashes_view(utxo_ids@)),
{
    if utxo_ids.len() == 0 {
        return zero_root();
    }
    let tree = tree_from_leaves(utxo_ids);
    match tree_root(&tree) {
        Some(h) => h,
        None => zero_root(),
    }
}

/// Builds the tree over the ids of `utxos` and its root (all zero when empty).
pub fn build_utxo_merkle_tree(utxos: &[Utxo]) -> (r: (UtxoMerkleTree, [u8; 32]))
    ensures
        merkle_leaves_of(r.0) == utxo_ids(utxos@),
        r.1@ == set_root(utxo_ids(utxos@)),
{
    let mut leaves: Vec<[u8; 32]> = Vec::new();
    let mut i: usize = 0;
    while i < utxos.len()
        invariant
            i <= utxos@.len(),
            leaves@.len() == i,
            forall|j: int| 0 <= j < i ==> leaves@[j] == utxos@[j].id,
        decreases utxos@.len() - i,
    {
        leaves.push(utxos[i].id);
        i = i + 1;
    }
    assert(hashes_view(leaves@) =~= utxo_ids(utxos@));
    let tree = tree_from_leaves(leaves.as_slice());
    if utxos.len() == 0 {
        return (tree, zero_root());
    }
    let root = match tree_root(&tree) {
        Some(h) => h,
        None => zero_root(),
    };
    (tree, root)
}

/// The sibling hashes that prove the leaf at `leaf_index` of `tree`.
pub fn generate_utxo_proof(tree: &UtxoMerkleTree, leaf_index: usize) -> (r: Option<
    Vec<[u8; 32]>,
>)
    ensures
        r matches Some(p) && hashes_view(p@) == merkle_proof_of(
            merkle_leaves_of(*tree),
            leaf_index as nat,
        ),
{
    Some(tree_proof(tree, leaf_index))
}

impl UtxoWithProof {
    /// Whether the proof shows the UTXO's id at its leaf index under `root`,
    /// in a tree of `total_leaves` leaves.
    pub fn verify(&self, root: &[u8; 32], total_leaves: usize) -> (r: bool)
        ensures
            r == merkle_verify_of(
                hashes_view(self.proof_hashes@),
                root@,
                self.leaf_index as nat,
                self.utxo.id@,
                total_leaves as nat,
            ),
    {
        proof_verify(&self.proof_hashes, root, self.leaf_index, &self.utxo.id, total_leaves)
    }
}

} // verus!
