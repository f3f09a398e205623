//! Content-addressed identity of orders.
use vstd::prelude::*;
use sha2::Digest;
use crate::bytes::{le8, push_le8, push_array, lemma_le8_injective};
use crate::types::{Order, Utxo, side_byte};

verus! {

/// SHA-256 digest of a byte string.
pub uninterp spec fn sha256_of(data: Seq<u8>) -> Seq<u8>;

/// Relies on sha2::Sha256::digest: the 32-byte SHA-256 digest of `data`.
#[verifier::external_body]
fn sha256(data: &Vec<u8>) -> (r: [u8; 32])
    ensures
        r@ == sha256_of(data@),
{
    sha2::Sha256::digest(data.as_slice()).into()
}

/// Serialisation of an order that its id hashes:
/// side byte, price, quantity, owner, nonce, expiry, integers little-endian.
pub open spec fn order_bytes(o: Order) -> Seq<u8> {
    seq![side_byte(o.side)] + le8(o.price) + le8(o.quantity) + o.owner@ + le8(o.nonce)
        + le8(o.expiry_batch)
}

/// The UTXO id of an order.
pub open spec fn utxo_id_of(o: Order) -> Seq<u8> {
    sha256_of(order_bytes(o))
}

/// Two orders are equal when all their fields are.
pub open spec fn same_order(a: Order, b: Order) -> bool {
    &&& a.side == b.side
    &&& a.price == b.price
    &&& a.quantity == b.quantity
    &&& a.owner@ == b.owner@
    &&& a.nonce == b.nonce
    &&& a.expiry_batch == b.expiry_batch
}

/// The id of an order depends on its fields alone, and the hashed serialisation
/// differs for any two orders that differ in a field, so two such orders get
/// different ids unless SHA-256 collides on them.
pub proof fn lemma_utxo_id_determined(a: Order, b: Order)
    ensures
        same_order(a, b) ==> utxo_id_of(a) == utxo_id_of(b),
        order_bytes(a) == order_bytes(b) ==> same_order(a, b),
{
    if same_order(a, b) {
        assert(order_bytes(a) =~= order_bytes(b));
    }
    if order_bytes(a) == order_bytes(b) {
        let (sa, sb) = (order_bytes(a), order_bytes(b));
        assert(sa[0] == side_byte(a.side) && sb[0] == side_byte(b.side));
        assert(sa.subrange(1, 9) =~= le8(a.price) && sb.subrange(1, 9) =~= le8(b.price));
        assert(sa.subrange(9, 17) =~= le8(a.quantity) && sb.subrange(9, 17) =~= le8(b.quantity));
        assert(sa.subrange(17, 37) =~= a.owner@ && sb.subrange(17, 37) =~= b.owner@);
        assert(sa.subrange(37, 45) =~= le8(a.nonce) && sb.subrange(37, 45) =~= le8(b.nonce));
        assert(sa.subrange(45, 53) =~= le8(a.expiry_batch)
            && sb.subrange(45, 53) =~= le8(b.expiry_batch));
        lemma_le8_injective(a.price, b.price);
        lemma_le8_injective(a.quantity, b.quantity);
        lemma_le8_injective(a.nonce, b.nonce);
        lemma_le8_injective(a.expiry_batch, b.expiry_batch);
    }
}

impl Order {
    /// The serialisation of the order that its id hashes.
    pub fn to_id_bytes(&self) -> (r: Vec<u8>)
        ensures
            r@ == order_bytes(*self),
    {
        let mut v: Vec<u8> = Vec::new();
        v.push(self.side.to_byte());
        push_le8(&mut v, self.price);
        push_le8(&mut v, self.quantity);
        push_array(&mut v, &self.owner);
        push_le8(&mut v, self.nonce);
        push_le8(&mut v, self.expiry_batch);
        v
    }

    /// The UTXO id of this order: SHA-256 of its serialisation.
    pub fn compute_utxo_id(&self) -> (r: [u8; 32])
        ensures
            r@ == utxo_id_of(*self),
    {
        sha256(&self.to_id_bytes())
    }
}

/// Whether an order is past its last valid batch.
pub open spec fn expired_at(o: Order, current_batch: u64) -> bool {
    o.expiry_batch < current_batch
}

impl Utxo {
    /// Creates the UTXO of an order.
    pub fn new(order: Order) -> (r: Utxo)
        ensures
            r.id@ == utxo_id_of(order),
            r.order == order,
    {
        let id = order.compute_utxo_id();
        Utxo { id, order }
    }

    /// Whether the UTXO is expired at `current_batch`.
    pub fn is_expired(&self, current_batch: u64) -> (r: bool)
        ensures
            r == expired_at(self.order, current_batch),
    {
        self.order.expiry_batch < current_batch
    }
}

} // verus!
