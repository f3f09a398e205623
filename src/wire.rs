//! The on-chain wire format: every field is one 32-byte word, integers
//! big-endian and left-padded with zeros, addresses left-padded, hashes as is.
use vstd::prelude::*;
use crate::bytes::{byte_at, lemma_le8_injective, le8};
use crate::types::{Side, Order, Utxo, UtxoWithProof, Fill, BatchInput, BatchOutput, BatchError, StateCommitment, Journal, side_byte};

verus! {

/// The eight big-endian bytes of `x`.
pub open spec fn be8(x: u64) -> Seq<u8> {
    Seq::new(8, |k: int| byte_at(x, 7 - k))
}

pub open spec fn zeros(n: nat) -> Seq<u8> {
    Seq::new(n, |i: int| 0u8)
}

/// An unsigned integer word.
pub open spec fn word_u64(x: u64) -> Seq<u8> {
    zeros(24) + be8(x)
}

/// An address word.
pub open spec fn word_addr(a: [u8; 20]) -> Seq<u8> {
    zeros(12) + a@
}

/// A boolean word.
pub open spec fn word_bool(b: bool) -> Seq<u8> {
    word_u64(if b { 1 } else { 0 })
}

/// Wire form of an order: side, price, quantity, owner, nonce, expiry.
pub open spec fn order_words(o: Order) -> Seq<u8> {
    word_u64(side_byte(o.side) as u64) + word_u64(o.price) + word_u64(o.quantity) + word_addr(
        o.owner,
    ) + word_u64(o.nonce) + word_u64(o.expiry_batch)
}

/// Wire form of a UTXO: its id, then the fields of its order.
pub open spec fn utxo_words(u: Utxo) -> Seq<u8> {
    u.id@ + order_words(u.order)
}

/// Wire form of a fill.
pub open spec fn fill_words(f: Fill) -> Seq<u8> {
    f.maker_utxo_id@ + f.taker_utxo_id@ + word_u64(f.price) + word_u64(f.quantity) + word_addr(
        f.maker,
    ) + word_addr(f.taker) + word_bool(f.maker_is_seller)
}

pub proof fn lemma_be8_injective(x: u64, y: u64)
    requires
        be8(x) == be8(y),
    ensures
        x == y,
{
    assert forall|k: int| 0 <= k < 8 implies le8(x)[k] == le8(y)[k] by {
        assert(be8(x)[7 - k] == be8(y)[7 - k]);
        assert(be8(x)[7 - k] == byte_at(x, k) && le8(x)[k] == byte_at(x, k));
        assert(be8(y)[7 - k] == byte_at(y, k) && le8(y)[k] == byte_at(y, k));
    }
    assert(le8(x) =~= le8(y));
    lemma_le8_injective(x, y);
}

proof fn lemma_word_u64_injective(x: u64, y: u64)
    requires
        word_u64(x) == word_u64(y),
    ensures
        x == y,
{
    assert(word_u64(x).subrange(24, 32) =~= be8(x));
    assert(word_u64(y).subrange(24, 32) =~= be8(y));
    lemma_be8_injective(x, y);
}

/// Appends `n` zero bytes.
fn push_zeros(v: &mut Vec<u8>, n: usize)
    ensures
        final(v)@ == old(v)@ + zeros(n as nat),
{
    let ghost start = v@;
    let mut i: usize = 0;
    while i < n
        invariant
            i <= n,
            v@ =~= start + zeros(i as nat),
        decreases n - i,
    {
        v.push(0u8);
        i = i + 1;
    }
}

/// Appends an integer word.
pub fn push_word_u64(v: &mut Vec<u8>, x: u64)
    ensures
        final(v)@ == old(v)@ + word_u64(x),
{
    let ghost start = v@;
    push_zeros(v, 24);
    let ghost mid = v@;
    let mut k: u64 = 0;
    while k < 8
        invariant
            k <= 8,
            mid == start + zeros(24),
            v@ == mid + be8(x).take(k as int),
        decreases 8 - k,
    {
        let b: u8 = ((x >> (8 * (7 - k))) & 0xff) as u8;
        assert(b == byte_at(x, 7 - k as int));
        v.push(b);
        assert(be8(x).take(k as int + 1) =~= be8(x).take(k as int).push(b));
        k = k + 1;
    }
    assert(be8(x).take(8) =~= be8(x));
    assert(v@ =~= start + word_u64(x));
}

/// Appends an address word.
pub fn push_word_addr(v: &mut Vec<u8>, a: &[u8; 20])
    ensures
        final(v)@ == old(v)@ + word_addr(*a),
{
    let ghost start = v@;
    push_zeros(v, 12);
    crate::bytes::push_array(v, a);
    assert(v@ =~= start + word_addr(*a));
}

/// The integer that eight big-endian bytes stand for.
fn u64_from_be(b: &[u8], at: usize) -> (r: u64)
    requires
        at + 8 <= b@.len(),
    ensures
        be8(r) == b@.subrange(at as int, at + 8),
{
    let b0 = b[at] as u64;
    let b1 = b[at + 1] as u64;
    let b2 = b[at + 2] as u64;
    let b3 = b[at + 3] as u64;
    let b4 = b[at + 4] as u64;
    let b5 = b[at + 5] as u64;
    let b6 = b[at + 6] as u64;
    let b7 = b[at + 7] as u64;
    let r: u64 = (b0 << 56u64) | (b1 << 48u64) | (b2 << 40u64) | (b3 << 32u64) | (b4 << 24u64) | (b5
        << 16u64) | (b6 << 8u64) | b7;
    assert(b0 < 256 && b1 < 256 && b2 < 256 && b3 < 256 && b4 < 256 && b5 < 256 && b6 < 256 && b7
        < 256);
    assert(((r >> 56u64) & 0xff) == b0 && ((r >> 48u64) & 0xff) == b1 && ((r >> 40u64) & 0xff) == b2
        && ((r >> 32u64) & 0xff) == b3 && ((r >> 24u64) & 0xff) == b4 && ((r >> 16u64) & 0xff) == b5
        && ((r >> 8u64) & 0xff) == b6 && ((r >> 0u64) & 0xff) == b7) by (bit_vector)
        requires
            b0 < 256 && b1 < 256 && b2 < 256 && b3 < 256 && b4 < 256 && b5 < 256 && b6 < 256 && b7
                < 256,
            r == (b0 << 56u64) | (b1 << 48u64) | (b2 << 40u64) | (b3 << 32u64) | (b4 << 24u64) | (b5
                << 16u64) | (b6 << 8u64) | b7,
    ;
    assert(be8(r) =~= b@.subrange(at as int, at + 8));
    r
}

/// Whether `b[at..at + n]` is all zero.
fn all_zero(b: &[u8], at: usize, n: usize) -> (r: bool)
    requires
        at + n <= b@.len(),
    ensures
        r == (b@.subrange(at as int, at + n) == zeros(n as nat)),
{
    let blen = b.len();
    let mut i: usize = 0;
    while i < n
        invariant
            i <= n,
            blen == b@.len(),
            at + n <= b@.len(),
            forall|j: int| 0 <= j < i ==> #[trigger] b@[at + j] == 0u8,
        decreases n - i,
    {
        if b[at + i] != 0 {
            assert(b@.subrange(at as int, at + n)[i as int] != zeros(n as nat)[i as int]);
            return false;
        }
        i = i + 1;
    }
    assert forall|j: int| 0 <= j < n implies b@.subrange(at as int, at + n)[j] == zeros(n as nat)[j] by {
        assert(b@[at + j] == 0u8);
    }
    assert(b@.subrange(at as int, at + n) =~= zeros(n as nat));
    true
}

/// Reads an integer word at `at`; `None` when its padding is not zero.
pub fn read_word_u64(b: &[u8], at: usize) -> (r: Option<u64>)
    requires
        at + 32 <= b@.len(),
    ensures
        r matches Some(x) ==> b@.subrange(at as int, at + 32) == word_u64(x),
        r is None ==> forall|x: u64| b@.subrange(at as int, at + 32) != #[trigger] word_u64(x),
{
    let blen = b.len();
    if !all_zero(b, at, 24) {
        assert forall|x: u64| b@.subrange(at as int, at + 32) != #[trigger] word_u64(x) by {
            if b@.subrange(at as int, at + 32) == word_u64(x) {
                assert(b@.subrange(at as int, at + 24) =~= word_u64(x).subrange(0, 24));
                assert(word_u64(x).subrange(0, 24) =~= zeros(24));
            }
        }
        return None;
    }
    let x = u64_from_be(b, at + 24);
    assert(b@.subrange(at as int, at + 32) =~= b@.subrange(at as int, at + 24) + b@.subrange(
        at + 24,
        at + 32,
    ));
    Some(x)
}

/// Reads `N` bytes at `at` into an array.
fn read_array<const N: usize>(b: &[u8], at: usize) -> (r: [u8; N])
    requires
        at + N <= b@.len(),
    ensures
        r@ == b@.subrange(at as int, at + N),
{
    let blen = b.len();
    let mut a: [u8; N] = [0u8; N];
    let mut i: usize = 0;
    while i < N
        invariant
            i <= N,
            blen == b@.len(),
            a@.len() == N,
            at + N <= b@.len(),
            forall|j: int| 0 <= j < i ==> #[trigger] a@[j] == b@[at + j],
        decreases N - i,
    {
        a.set(i, b[at + i]);
        i = i + 1;
    }
    assert(a@ =~= b@.subrange(at as int, at + N));
    a
}

/// Reads an address word at `at`; `None` when its padding is not zero.
pub fn read_word_addr(b: &[u8], at: usize) -> (r: Option<[u8; 20]>)
    requires
        at + 32 <= b@.len(),
    ensures
        r matches Some(a) ==> b@.subrange(at as int, at + 32) == word_addr(a),
        r is None ==> forall|a: [u8; 20]| b@.subrange(at as int, at + 32) != #[trigger] word_addr(a),
{
    let blen = b.len();
    if !all_zero(b, at, 12) {
        assert forall|a: [u8; 20]| b@.subrange(at as int, at + 32) != #[trigger] word_addr(a) by {
            if b@.subrange(at as int, at + 32) == word_addr(a) {
                assert(b@.subrange(at as int, at + 12) =~= word_addr(a).subrange(0, 12));
                assert(word_addr(a).subrange(0, 12) =~= zeros(12));
            }
        }
        return None;
    }
    let a: [u8; 20] = read_array(b, at + 12);
    assert(b@.subrange(at as int, at + 32) =~= b@.subrange(at as int, at + 12) + b@.subrange(
        at + 12,
        at + 32,
    ));
    Some(a)
}

/// The 32-byte word `k` of `s`, counted from `at`.
pub open spec fn word_at(s: Seq<u8>, at: int, k: int) -> Seq<u8> {
    s.subrange(at + 32 * k, at + 32 * k + 32)
}

proof fn lemma_order_words_parts(o: Order)
    ensures
        order_words(o).len() == 192,
        word_at(order_words(o), 0, 0) == word_u64(side_byte(o.side) as u64),
        word_at(order_words(o), 0, 1) == word_u64(o.price),
        word_at(order_words(o), 0, 2) == word_u64(o.quantity),
        word_at(order_words(o), 0, 3) == word_addr(o.owner),
        word_at(order_words(o), 0, 4) == word_u64(o.nonce),
        word_at(order_words(o), 0, 5) == word_u64(o.expiry_batch),
{
    let w = order_words(o);
    assert(word_at(w, 0, 0) =~= word_u64(side_byte(o.side) as u64));
    assert(word_at(w, 0, 1) =~= word_u64(o.price));
    assert(word_at(w, 0, 2) =~= word_u64(o.quantity));
    assert(word_at(w, 0, 3) =~= word_addr(o.owner));
    assert(word_at(w, 0, 4) =~= word_u64(o.nonce));
    assert(word_at(w, 0, 5) =~= word_u64(o.expiry_batch));
}

/// Distinct orders have distinct wire forms.
pub proof fn lemma_order_words_injective(a: Order, b: Order)
    requires
        order_words(a) == order_words(b),
    ensures
        a == b,
{
    lemma_order_words_parts(a);
    lemma_order_words_parts(b);
    lemma_word_u64_injective(side_byte(a.side) as u64, side_byte(b.side) as u64);
    lemma_word_u64_injective(a.price, b.price);
    lemma_word_u64_injective(a.quantity, b.quantity);
    lemma_word_u64_injective(a.nonce, b.nonce);
    lemma_word_u64_injective(a.expiry_batch, b.expiry_batch);
    assert(a.owner@ =~= word_addr(a.owner).subrange(12, 32));
    assert(b.owner@ =~= word_addr(b.owner).subrange(12, 32));
    assert(a.owner =~= b.owner);
}

/// Reads an order whose six words start at `at`.
fn read_order(b: &[u8], at: usize) -> (r: Option<Order>)
    requires
        at + 192 <= b@.len(),
    ensures
        r matches Some(o) ==> b@.subrange(at as int, at + 192) == order_words(o),
        r is None ==> forall|o: Order| b@.subrange(at as int, at + 192) != #[trigger] order_words(o),
{
    let blen = b.len();
    let ghost s = b@.subrange(at as int, at + 192);
    assert forall|k: int| 0 <= k < 6 implies #[trigger] word_at(s, 0, k) == b@.subrange(
        at + 32 * k,
        at + 32 * k + 32,
    ) by {
        assert(word_at(s, 0, k) =~= b@.subrange(at + 32 * k, at + 32 * k + 32));
    }
    let w0 = read_word_u64(b, at);
    let w1 = read_word_u64(b, at + 32);
    let w2 = read_word_u64(b, at + 64);
    let w3 = read_word_addr(b, at + 96);
    let w4 = read_word_u64(b, at + 128);
    let w5 = read_word_u64(b, at + 160);
    assert(word_at(s, 0, 0) == b@.subrange(at as int, at + 32));
    assert(word_at(s, 0, 1) == b@.subrange(at + 32, at + 64));
    assert(word_at(s, 0, 2) == b@.subrange(at + 64, at + 96));
    assert(word_at(s, 0, 3) == b@.subrange(at + 96, at + 128));
    assert(word_at(s, 0, 4) == b@.subrange(at + 128, at + 160));
    assert(word_at(s, 0, 5) == b@.subrange(at + 160, at + 192));
    match (w0, w1, w2, w3, w4, w5) {
        (Some(side), Some(price), Some(quantity), Some(owner), Some(nonce), Some(expiry_batch)) => {
            let side = if side == 0 {
                Side::Buy
            } else if side == 1 {
                Side::Sell
            } else {
                proof {
                    assert forall|o: Order| s != #[trigger] order_words(o) by {
                        lemma_order_words_parts(o);
                        if s == order_words(o) {
                            lemma_word_u64_injective(side_byte(o.side) as u64, side);
                        }
                    }
                }
                return None;
            };
            let o = Order { side, price, quantity, owner, nonce, expiry_batch };
            proof {
                lemma_order_words_parts(o);
                assert(s =~= order_words(o)) by {
                    assert forall|j: int| 0 <= j < 192 implies s[j] == order_words(o)[j] by {
                        let k = j / 32;
                        assert(word_at(s, 0, k)[j - 32 * k] == s[j]);
                        assert(word_at(order_words(o), 0, k)[j - 32 * k] == order_words(o)[j]);
                    }
                }
            }
            Some(o)
        },
        _ => {
            proof {
                assert forall|o: Order| s != #[trigger] order_words(o) by {
                    lemma_order_words_parts(o);
                }
            }
            None
        },
    }
}

impl Order {
    /// Wire form of the order.
    pub fn to_abi_bytes(&self) -> (r: Vec<u8>)
        ensures
            r@ == order_words(*self),
    {
        let mut v: Vec<u8> = Vec::new();
        push_word_u64(&mut v, self.side.to_byte() as u64);
        push_word_u64(&mut v, self.price);
        push_word_u64(&mut v, self.quantity);
        push_word_addr(&mut v, &self.owner);
        push_word_u64(&mut v, self.nonce);
        push_word_u64(&mut v, self.expiry_batch);
        assert(v@ =~= order_words(*self));
        v
    }

    /// Decodes the wire form of an order; only canonical bytes are accepted.
    pub fn from_abi_bytes(b: &[u8]) -> (r: Result<Order, BatchError>)
        ensures
            r matches Ok(o) ==> b@ == order_words(o),
            r is Err ==> forall|o: Order| b@ != #[trigger] order_words(o),
            r matches Err(e) ==> e == BatchError::DecodeError,
    {
        if b.len() != 192 {
            proof {
                assert forall|o: Order| b@ != #[trigger] order_words(o) by {
                    lemma_order_words_parts(o);
                }
            }
            return Err(BatchError::DecodeError);
        }
        assert(b@.subrange(0, 192) =~= b@);
        match read_order(b, 0) {
            Some(o) => Ok(o),
            None => Err(BatchError::DecodeError),
        }
    }
}

/// Distinct UTXOs have distinct wire forms.
pub proof fn lemma_utxo_words_injective(a: Utxo, b: Utxo)
    requires
        utxo_words(a) == utxo_words(b),
    ensures
        a == b,
{
    lemma_order_words_parts(a.order);
    assert(utxo_words(a).subrange(0, 32) =~= a.id@);
    assert(utxo_words(b).subrange(0, 32) =~= b.id@);
    assert(utxo_words(a).subrange(32, 224) =~= order_words(a.order));
    assert(utxo_words(b).subrange(32, 224) =~= order_words(b.order));
    lemma_order_words_injective(a.order, b.order);
    assert(a.id =~= b.id);
}

/// Reads a UTXO whose seven words start at `at`.
fn read_utxo(b: &[u8], at: usize) -> (r: Option<Utxo>)
    requires
        at + 224 <= b@.len(),
    ensures
        r matches Some(u) ==> b@.subrange(at as int, at + 224) == utxo_words(u),
        r is None ==> forall|u: Utxo| b@.subrange(at as int, at + 224) != #[trigger] utxo_words(u),
{
    let blen = b.len();
    let ghost s = b@.subrange(at as int, at + 224);
    assert(s =~= b@.subrange(at as int, at + 32) + b@.subrange(at + 32, at + 224));
    let id: [u8; 32] = read_array(b, at);
    match read_order(b, at + 32) {
        Some(order) => {
            let u = Utxo { id, order };
            assert(s =~= utxo_words(u));
            Some(u)
        },
        None => {
            proof {
                assert forall|u: Utxo| s != #[trigger] utxo_words(u) by {
                    lemma_order_words_parts(u.order);
                    if s == utxo_words(u) {
                        assert(s.subrange(32, 224) =~= order_words(u.order));
                        assert(s.subrange(32, 224) =~= b@.subrange(at + 32, at + 224));
                    }
                }
            }
            None
        },
    }
}

impl Utxo {
    /// Wire form of the UTXO.
    pub fn to_abi_bytes(&self) -> (r: Vec<u8>)
        ensures
            r@ == utxo_words(*self),
    {
        let mut v: Vec<u8> = Vec::new();
        crate::bytes::push_array(&mut v, &self.id);
        let o = self.order.to_abi_bytes();
        let mut i: usize = 0;
        while i < o.len()
            invariant
                i <= o@.len(),
                v@ == self.id@ + o@.take(i as int),
            decreases o@.len() - i,
        {
            v.push(o[i]);
            assert(o@.take(i as int + 1) =~= o@.take(i as int).push(o@[i as int]));
            i = i + 1;
        }
        assert(o@.take(o@.len() as int) =~= o@);
        v
    }

    /// Decodes the wire form of a UTXO; only canonical bytes are accepted.
    pub fn from_abi_bytes(b: &[u8]) -> (r: Result<Utxo, BatchError>)
        ensures
            r matches Ok(u) ==> b@ == utxo_words(u),
            r is Err ==> forall|u: Utxo| b@ != #[trigger] utxo_words(u),
            r matches Err(e) ==> e == BatchError::DecodeError,
    {
        if b.len() != 224 {
            proof {
                assert forall|u: Utxo| b@ != #[trigger] utxo_words(u) by {
                    lemma_order_words_parts(u.order);
                }
            }
            return Err(BatchError::DecodeError);
        }
        assert(b@.subrange(0, 224) =~= b@);
        match read_utxo(b, 0) {
            Some(u) => Ok(u),
            None => Err(BatchError::DecodeError),
        }
    }
}

proof fn lemma_fill_words_parts(f: Fill)
    ensures
        fill_words(f).len() == 224,
        word_at(fill_words(f), 0, 0) == f.maker_utxo_id@,
        word_at(fill_words(f), 0, 1) == f.taker_utxo_id@,
        word_at(fill_words(f), 0, 2) == word_u64(f.price),
        word_at(fill_words(f), 0, 3) == word_u64(f.quantity),
        word_at(fill_words(f), 0, 4) == word_addr(f.maker),
        word_at(fill_words(f), 0, 5) == word_addr(f.taker),
        word_at(fill_words(f), 0, 6) == word_bool(f.maker_is_seller),
{
    let w = fill_words(f);
    assert(word_at(w, 0, 0) =~= f.maker_utxo_id@);
    assert(word_at(w, 0, 1) =~= f.taker_utxo_id@);
    assert(word_at(w, 0, 2) =~= word_u64(f.price));
    assert(word_at(w, 0, 3) =~= word_u64(f.quantity));
    assert(word_at(w, 0, 4) =~= word_addr(f.maker));
    assert(word_at(w, 0, 5) =~= word_addr(f.taker));
    assert(word_at(w, 0, 6) =~= word_bool(f.maker_is_seller));
}

/// Distinct fills have distinct wire forms.
pub proof fn lemma_fill_words_injective(a: Fill, b: Fill)
    requires
        fill_words(a) == fill_words(b),
    ensures
        a == b,
{
    lemma_fill_words_parts(a);
    lemma_fill_words_parts(b);
    lemma_word_u64_injective(a.price, b.price);
    lemma_word_u64_injective(a.quantity, b.quantity);
    lemma_word_u64_injective(
        if a.maker_is_seller { 1 } else { 0 },
        if b.maker_is_seller { 1 } else { 0 },
    );
    assert(a.maker@ =~= word_addr(a.maker).subrange(12, 32));
    assert(b.maker@ =~= word_addr(b.maker).subrange(12, 32));
    assert(a.taker@ =~= word_addr(a.taker).subrange(12, 32));
    assert(b.taker@ =~= word_addr(b.taker).subrange(12, 32));
    assert(a.maker =~= b.maker);
    assert(a.taker =~= b.taker);
    assert(a.maker_utxo_id =~= b.maker_utxo_id);
    assert(a.taker_utxo_id =~= b.taker_utxo_id);
}

impl Fill {
    /// Wire form of the fill.
    pub fn to_abi_bytes(&self) -> (r: Vec<u8>)
        ensures
            r@ == fill_words(*self),
    {
        let mut v: Vec<u8> = Vec::new();
        crate::bytes::push_array(&mut v, &self.maker_utxo_id);
        crate::bytes::push_array(&mut v, &self.taker_utxo_id);
        push_word_u64(&mut v, self.price);
        push_word_u64(&mut v, self.quantity);
        push_word_addr(&mut v, &self.maker);
        push_word_addr(&mut v, &self.taker);
        push_word_u64(&mut v, if self.maker_is_seller { 1 } else { 0 });
        assert(v@ =~= fill_words(*self));
        v
    }

    /// Decodes the wire form of a fill; only canonical bytes are accepted.
    pub fn from_abi_bytes(b: &[u8]) -> (r: Result<Fill, BatchError>)
        ensures
            r matches Ok(f) ==> b@ == fill_words(f),
            r is Err ==> forall|f: Fill| b@ != #[trigger] fill_words(f),
            r matches Err(e) ==> e == BatchError::DecodeError,
    {
        if b.len() != 224 {
            proof {
                assert forall|f: Fill| b@ != #[trigger] fill_words(f) by {
                    lemma_fill_words_parts(f);
                }
            }
            return Err(BatchError::DecodeError);
        }
        let ghost s = b@;
        assert forall|k: int| 0 <= k < 7 implies #[trigger] word_at(s, 0, k) == b@.subrange(
            32 * k,
            32 * k + 32,
        ) by {}
        let maker_utxo_id: [u8; 32] = read_array(b, 0);
        let taker_utxo_id: [u8; 32] = read_array(b, 32);
        let w2 = read_word_u64(b, 64);
        let w3 = read_word_u64(b, 96);
        let w4 = read_word_addr(b, 128);
        let w5 = read_word_addr(b, 160);
        let w6 = read_word_u64(b, 192);
        assert(word_at(s, 0, 0) == b@.subrange(0, 32));
        assert(word_at(s, 0, 1) == b@.subrange(32, 64));
        assert(word_at(s, 0, 2) == b@.subrange(64, 96));
        assert(word_at(s, 0, 3) == b@.subrange(96, 128));
        assert(word_at(s, 0, 4) == b@.subrange(128, 160));
        assert(word_at(s, 0, 5) == b@.subrange(160, 192));
        assert(word_at(s, 0, 6) == b@.subrange(192, 224));
        match (w2, w3, w4, w5, w6) {
            (Some(price), Some(quantity), Some(maker), Some(taker), Some(flag)) => {
                if flag > 1 {
                    proof {
                        assert forall|f: Fill| s != #[trigger] fill_words(f) by {
                            lemma_fill_words_parts(f);
                            if s == fill_words(f) {
                                lemma_word_u64_injective(
                                    if f.maker_is_seller { 1 } else { 0 },
                                    flag,
                                );
                            }
                        }
                    }
                    return Err(BatchError::DecodeError);
                }
                let f = Fill {
                    maker_utxo_id,
                    taker_utxo_id,
                    price,
                    quantity,
                    maker,
                    taker,
                    maker_is_seller: flag == 1,
                };
                proof {
                    lemma_fill_words_parts(f);
                    assert forall|j: int| 0 <= j < 224 implies s[j] == fill_words(f)[j] by {
                        let k = j / 32;
                        assert(word_at(s, 0, k)[j - 32 * k] == s[j]);
                        assert(word_at(fill_words(f), 0, k)[j - 32 * k] == fill_words(f)[j]);
                    }
                    assert(s =~= fill_words(f));
                }
                Ok(f)
            },
            _ => {
                proof {
                    assert forall|f: Fill| s != #[trigger] fill_words(f) by {
                        lemma_fill_words_parts(f);
                    }
                }
                Err(BatchError::DecodeError)
            },
        }
    }
}

/// Concatenated wire forms of a sequence of fills.
pub open spec fn fill_bytes(s: Seq<Fill>) -> Seq<u8>
    decreases s.len(),
{
    if s.len() == 0 {
        Seq::empty()
    } else {
        fill_bytes(s.drop_last()) + fill_words(s.last())
    }
}

proof fn lemma_fill_bytes(s: Seq<Fill>)
    ensures
        fill_bytes(s).len() == 224 * s.len(),
        forall|k: int|
            0 <= k < s.len() ==> #[trigger] fill_bytes(s).subrange(224 * k, 224 * k + 224) == fill_words(
                s[k],
            ),
    decreases s.len(),
{
    
    if s.len() > 0 {
        let init = s.drop_last();
        lemma_fill_bytes(init);
        let a = fill_bytes(init);
        let n = s.len();
        assert(224 * (n - 1) + 224 == 224 * n) by (nonlinear_arith);
        assert forall|k: int| 0 <= k < s.len() implies #[trigger] fill_bytes(s).subrange(
            224 * k,
            224 * k + 224,
        ) == fill_words(s[k]) by {
            lemma_fill_words_parts(s[k]);
            if k < n - 1 {
                assert(224 * k + 224 <= 224 * (n - 1)) by (nonlinear_arith)
                    requires
                        k < n - 1,
                ;
                assert(fill_bytes(s).subrange(224 * k, 224 * k + 224) =~= a.subrange(224 * k, 224 * k + 224));
                assert(init[k] == s[k]);
            } else {
                assert(fill_bytes(s).subrange(224 * k, 224 * k + 224) =~= fill_words(s.last()));
            }
        }
    }
}

/// Reads `n` fills laid out one after another from `at`.
fn read_fills(b: &[u8], at: usize, n: usize) -> (r: Option<Vec<Fill>>)
    requires
        at + 224 * n <= b@.len(),
    ensures
        r matches Some(v) ==> v@.len() == n && b@.subrange(at as int, at + 224 * n) == fill_bytes(
            v@,
        ),
        r is None ==> forall|s: Seq<Fill>|
            s.len() == n ==> b@.subrange(at as int, at + 224 * n) != #[trigger] fill_bytes(s),
{
    let blen = b.len();
    let mut v: Vec<Fill> = Vec::new();
    let mut i: usize = 0;
    while i < n
        invariant
            i <= n,
            blen == b@.len(),
            at + 224 * n <= b@.len(),
            v@.len() == i,
            b@.subrange(at as int, at + 224 * i) == fill_bytes(v@),
        decreases n - i,
    {
        assert(224 * i + 224 <= 224 * n) by (nonlinear_arith)
            requires
                i < n,
        ;
        let pos = at + 224 * i;
        let chunk = &b[pos..pos + 224];
        assert(chunk@ == b@.subrange(pos as int, pos + 224));
        match Fill::from_abi_bytes(chunk) {
            Ok(item) => {
                let ghost v0 = v@;
                v.push(item);
                assert(v@.drop_last() =~= v0);
                assert(b@.subrange(at as int, at + 224 * (i + 1)) =~= b@.subrange(at as int, pos as int)
                    + b@.subrange(pos as int, pos + 224));
            },
            _ => {
                proof {
                    assert forall|s: Seq<Fill>|
                        s.len() == n implies b@.subrange(at as int, at + 224 * n) != #[trigger] fill_bytes(s) by {
                        lemma_fill_bytes(s);
                        if b@.subrange(at as int, at + 224 * n) == fill_bytes(s) {
                            assert(fill_bytes(s).subrange(224 * i, 224 * i + 224) =~= b@.subrange(
                                pos as int,
                                pos + 224,
                            ));
                            assert(chunk@ == fill_words(s[i as int]));
                        }
                    }
                }
                return None;
            },
        }
        i = i + 1;
    }
    Some(v)
}

/// Concatenated wire forms of a sequence of UTXOs.
pub open spec fn utxo_bytes(s: Seq<Utxo>) -> Seq<u8>
    decreases s.len(),
{
    if s.len() == 0 {
        Seq::empty()
    } else {
        utxo_bytes(s.drop_last()) + utxo_words(s.last())
    }
}

proof fn lemma_utxo_bytes(s: Seq<Utxo>)
    ensures
        utxo_bytes(s).len() == 224 * s.len(),
        forall|k: int|
            0 <= k < s.len() ==> #[trigger] utxo_bytes(s).subrange(224 * k, 224 * k + 224) == utxo_words(
                s[k],
            ),
    decreases s.len(),
{
    
    if s.len() > 0 {
        let init = s.drop_last();
        lemma_utxo_bytes(init);
        let a = utxo_bytes(init);
        let n = s.len();
        assert(224 * (n - 1) + 224 == 224 * n) by (nonlinear_arith);
        assert forall|k: int| 0 <= k < s.len() implies #[trigger] utxo_bytes(s).subrange(
            224 * k,
            224 * k + 224,
        ) == utxo_words(s[k]) by {
            lemma_order_words_parts(s[k].order);
            if k < n - 1 {
                assert(224 * k + 224 <= 224 * (n - 1)) by (nonlinear_arith)
                    requires
                        k < n - 1,
                ;
                assert(utxo_bytes(s).subrange(224 * k, 224 * k + 224) =~= a.subrange(224 * k, 224 * k + 224));
                assert(init[k] == s[k]);
            } else {
                assert(utxo_bytes(s).subrange(224 * k, 224 * k + 224) =~= utxo_words(s.last()));
            }
        }
    }
}

/// Reads `n` UTXOs laid out one after another from `at`.
fn read_utxos(b: &[u8], at: usize, n: usize) -> (r: Option<Vec<Utxo>>)
    requires
        at + 224 * n <= b@.len(),
    ensures
        r matches Some(v) ==> v@.len() == n && b@.subrange(at as int, at + 224 * n) == utxo_bytes(
            v@,
        ),
        r is None ==> forall|s: Seq<Utxo>|
            s.len() == n ==> b@.subrange(at as int, at + 224 * n) != #[trigger] utxo_bytes(s),
{
    let blen = b.len();
    let mut v: Vec<Utxo> = Vec::new();
    let mut i: usize = 0;
    while i < n
        invariant
            i <= n,
            blen == b@.len(),
            at + 224 * n <= b@.len(),
            v@.len() == i,
            b@.subrange(at as int, at + 224 * i) == utxo_bytes(v@),
        decreases n - i,
    {
        assert(224 * i + 224 <= 224 * n) by (nonlinear_arith)
            requires
                i < n,
        ;
        let pos = at + 224 * i;
        let chunk = &b[pos..pos + 224];
        assert(chunk@ == b@.subrange(pos as int, pos + 224));
        match Utxo::from_abi_bytes(chunk) {
            Ok(item) => {
                let ghost v0 = v@;
                v.push(item);
                assert(v@.drop_last() =~= v0);
                assert(b@.subrange(at as int, at + 224 * (i + 1)) =~= b@.subrange(at as int, pos as int)
                    + b@.subrange(pos as int, pos + 224));
            },
            _ => {
                proof {
                    assert forall|s: Seq<Utxo>|
                        s.len() == n implies b@.subrange(at as int, at + 224 * n) != #[trigger] utxo_bytes(s) by {
                        lemma_utxo_bytes(s);
                        if b@.subrange(at as int, at + 224 * n) == utxo_bytes(s) {
                            assert(utxo_bytes(s).subrange(224 * i, 224 * i + 224) =~= b@.subrange(
                                pos as int,
                                pos + 224,
                            ));
                            assert(chunk@ == utxo_words(s[i as int]));
                        }
                    }
                }
                return None;
            },
        }
        i = i + 1;
    }
    Some(v)
}

/// Concatenated wire forms of a sequence of hashes.
pub open spec fn hash_bytes(s: Seq<[u8; 32]>) -> Seq<u8>
    decreases s.len(),
{
    if s.len() == 0 {
        Seq::empty()
    } else {
        hash_bytes(s.drop_last()) + hash_words(s.last())
    }
}

proof fn lemma_hash_bytes(s: Seq<[u8; 32]>)
    ensures
        hash_bytes(s).len() == 32 * s.len(),
        forall|k: int|
            0 <= k < s.len() ==> #[trigger] hash_bytes(s).subrange(32 * k, 32 * k + 32) == hash_words(
                s[k],
            ),
    decreases s.len(),
{
    
    if s.len() > 0 {
        let init = s.drop_last();
        lemma_hash_bytes(init);
        let a = hash_bytes(init);
        let n = s.len();
        assert(32 * (n - 1) + 32 == 32 * n) by (nonlinear_arith);
        assert forall|k: int| 0 <= k < s.len() implies #[trigger] hash_bytes(s).subrange(
            32 * k,
            32 * k + 32,
        ) == hash_words(s[k]) by {
            
            if k < n - 1 {
                assert(32 * k + 32 <= 32 * (n - 1)) by (nonlinear_arith)
                    requires
                        k < n - 1,
                ;
                assert(hash_bytes(s).subrange(32 * k, 32 * k + 32) =~= a.subrange(32 * k, 32 * k + 32));
                assert(init[k] == s[k]);
            } else {
                assert(hash_bytes(s).subrange(32 * k, 32 * k + 32) =~= hash_words(s.last()));
            }
        }
    }
}

/// Reads `n` hashes laid out one after another from `at`.
fn read_hashes(b: &[u8], at: usize, n: usize) -> (r: Vec<[u8; 32]>)
    requires
        at + 32 * n <= b@.len(),
    ensures
        r@.len() == n && b@.subrange(at as int, at + 32 * n) == hash_bytes(r@),
{
    let blen = b.len();
    let mut v: Vec<[u8; 32]> = Vec::new();
    let mut i: usize = 0;
    while i < n
        invariant
            i <= n,
            blen == b@.len(),
            at + 32 * n <= b@.len(),
            v@.len() == i,
            b@.subrange(at as int, at + 32 * i) == hash_bytes(v@),
        decreases n - i,
    {
        let pos = at + 32 * i;
        let item: [u8; 32] = read_array(b, pos);
        let ghost v0 = v@;
        v.push(item);
        assert(v@.drop_last() =~= v0);
        assert(b@.subrange(at as int, at + 32 * (i + 1)) =~= b@.subrange(at as int, pos as int)
            + b@.subrange(pos as int, pos + 32));
        i = i + 1;
    }
    v
}

/// Wire form of a hash.
pub open spec fn hash_words(h: [u8; 32]) -> Seq<u8> {
    h@
}

/// Byte length of the wire form of a batch output behind `x` extra head bytes.
pub open spec fn body_len(out: BatchOutput, x: int) -> int {
    288 + x + 224 * out.fills@.len() + 224 * out.new_utxos@.len() + 32
        * out.consumed_utxo_ids@.len() as int
}

/// Wire form of the fields of a batch output, as one dynamic tuple whose head
/// starts with the words `extra`: a leading offset word, the head (`extra`,
/// batch index, the offsets of the three arrays, the new root), then each
/// array as its length followed by its elements.
pub open spec fn body_words(out: BatchOutput, extra: Seq<u8>) -> Seq<u8> {
    let x = extra.len() as int;
    let nf = out.fills@.len() as int;
    let nu = out.new_utxos@.len() as int;
    let nc = out.consumed_utxo_ids@.len() as int;
    word_u64(32) + extra + word_u64(out.batch_index) + word_u64((160 + x) as u64) + word_u64(
        (192 + x + 224 * nf) as u64,
    ) + word_u64((224 + x + 224 * nf + 224 * nu) as u64) + out.new_utxo_merkle_root@ + word_u64(
        nf as u64,
    ) + fill_bytes(out.fills@) + word_u64(nu as u64) + utxo_bytes(out.new_utxos@) + word_u64(
        nc as u64,
    ) + hash_bytes(out.consumed_utxo_ids@)
}

/// Byte length of the wire form of a batch output.
pub open spec fn output_len(out: BatchOutput) -> int {
    body_len(out, 0)
}

/// Wire form of a batch output.
pub open spec fn output_words(out: BatchOutput) -> Seq<u8> {
    body_words(out, Seq::empty())
}

proof fn lemma_body_layout(out: BatchOutput, extra: Seq<u8>)
    ensures
        ({
            let w = body_words(out, extra);
            let x = extra.len() as int;
            let nf = out.fills@.len() as int;
            let nu = out.new_utxos@.len() as int;
            let nc = out.consumed_utxo_ids@.len() as int;
            let pu = 224 + x + 224 * nf;
            let pc = pu + 32 + 224 * nu;
            &&& w.len() == body_len(out, x)
            &&& w.subrange(0, 32) == word_u64(32)
            &&& w.subrange(32, 32 + x) == extra
            &&& w.subrange(32 + x, 64 + x) == word_u64(out.batch_index)
            &&& w.subrange(64 + x, 96 + x) == word_u64((160 + x) as u64)
            &&& w.subrange(96 + x, 128 + x) == word_u64((192 + x + 224 * nf) as u64)
            &&& w.subrange(128 + x, 160 + x) == word_u64((224 + x + 224 * nf + 224 * nu) as u64)
            &&& w.subrange(160 + x, 192 + x) == out.new_utxo_merkle_root@
            &&& w.subrange(192 + x, 224 + x) == word_u64(nf as u64)
            &&& w.subrange(224 + x, pu) == fill_bytes(out.fills@)
            &&& w.subrange(pu, pu + 32) == word_u64(nu as u64)
            &&& w.subrange(pu + 32, pc) == utxo_bytes(out.new_utxos@)
            &&& w.subrange(pc, pc + 32) == word_u64(nc as u64)
            &&& w.subrange(pc + 32, pc + 32 + 32 * nc) == hash_bytes(out.consumed_utxo_ids@)
        }),
{
    lemma_fill_bytes(out.fills@);
    lemma_utxo_bytes(out.new_utxos@);
    lemma_hash_bytes(out.consumed_utxo_ids@);
    let w = body_words(out, extra);
    let x = extra.len() as int;
    let nf = out.fills@.len() as int;
    let nu = out.new_utxos@.len() as int;
    let nc = out.consumed_utxo_ids@.len() as int;
    let pu = 224 + x + 224 * nf;
    let pc = pu + 32 + 224 * nu;
    assert(w.subrange(0, 32) =~= word_u64(32));
    assert(w.subrange(32, 32 + x) =~= extra);
    assert(w.subrange(32 + x, 64 + x) =~= word_u64(out.batch_index));
    assert(w.subrange(64 + x, 96 + x) =~= word_u64((160 + x) as u64));
    assert(w.subrange(96 + x, 128 + x) =~= word_u64((192 + x + 224 * nf) as u64));
    assert(w.subrange(128 + x, 160 + x) =~= word_u64((224 + x + 224 * nf + 224 * nu) as u64));
    assert(w.subrange(160 + x, 192 + x) =~= out.new_utxo_merkle_root@);
    assert(w.subrange(192 + x, 224 + x) =~= word_u64(nf as u64));
    assert(w.subrange(224 + x, pu) =~= fill_bytes(out.fills@));
    assert(w.subrange(pu, pu + 32) =~= word_u64(nu as u64));
    assert(w.subrange(pu + 32, pc) =~= utxo_bytes(out.new_utxos@));
    assert(w.subrange(pc, pc + 32) =~= word_u64(nc as u64));
    assert(w.subrange(pc + 32, pc + 32 + 32 * nc) =~= hash_bytes(out.consumed_utxo_ids@));
}

/// Appends bytes.
fn push_bytes(v: &mut Vec<u8>, w: &Vec<u8>)
    ensures
        final(v)@ == old(v)@ + w@,
{
    let ghost start = v@;
    let mut i: usize = 0;
    while i < w.len()
        invariant
            i <= w@.len(),
            v@ == start + w@.take(i as int),
        decreases w@.len() - i,
    {
        v.push(w[i]);
        assert(w@.take(i as int + 1) =~= w@.take(i as int).push(w@[i as int]));
        i = i + 1;
    }
    assert(w@.take(w@.len() as int) =~= w@);
}

/// The wire form of the fields of `out` behind the extra head bytes `extra`.
fn encode_body(out: &BatchOutput, extra: &Vec<u8>) -> (r: Vec<u8>)
    requires
        body_len(*out, extra@.len() as int) <= usize::MAX,
    ensures
        r@ == body_words(*out, extra@),
{
    let x = extra.len();
    let nf = out.fills.len();
    let nu = out.new_utxos.len();
    let nc = out.consumed_utxo_ids.len();
    let mut v: Vec<u8> = Vec::new();
    push_word_u64(&mut v, 32);
    push_bytes(&mut v, extra);
    push_word_u64(&mut v, out.batch_index);
    push_word_u64(&mut v, (160 + x) as u64);
    push_word_u64(&mut v, (192 + x + 224 * nf) as u64);
    push_word_u64(&mut v, (224 + x + 224 * nf + 224 * nu) as u64);
    crate::bytes::push_array(&mut v, &out.new_utxo_merkle_root);
    push_word_u64(&mut v, nf as u64);
    let ghost h = v@;
    let mut i: usize = 0;
    while i < nf
        invariant
            i <= nf == out.fills@.len(),
            v@ == h + fill_bytes(out.fills@.take(i as int)),
        decreases nf - i,
    {
        let w = out.fills[i].to_abi_bytes();
        push_bytes(&mut v, &w);
        assert(out.fills@.take(i as int + 1).drop_last() =~= out.fills@.take(i as int));
        i = i + 1;
    }
    assert(out.fills@.take(nf as int) =~= out.fills@);
    push_word_u64(&mut v, nu as u64);
    let ghost h = v@;
    let mut i: usize = 0;
    while i < nu
        invariant
            i <= nu == out.new_utxos@.len(),
            v@ == h + utxo_bytes(out.new_utxos@.take(i as int)),
        decreases nu - i,
    {
        let w = out.new_utxos[i].to_abi_bytes();
        push_bytes(&mut v, &w);
        assert(out.new_utxos@.take(i as int + 1).drop_last() =~= out.new_utxos@.take(i as int));
        i = i + 1;
    }
    assert(out.new_utxos@.take(nu as int) =~= out.new_utxos@);
    push_word_u64(&mut v, nc as u64);
    let ghost h = v@;
    let mut i: usize = 0;
    while i < nc
        invariant
            i <= nc == out.consumed_utxo_ids@.len(),
            v@ == h + hash_bytes(out.consumed_utxo_ids@.take(i as int)),
        decreases nc - i,
    {
        crate::bytes::push_array(&mut v, &out.consumed_utxo_ids[i]);
        assert(out.consumed_utxo_ids@.take(i as int + 1).drop_last()
            =~= out.consumed_utxo_ids@.take(i as int));
        i = i + 1;
    }
    assert(out.consumed_utxo_ids@.take(nc as int) =~= out.consumed_utxo_ids@);
    assert(v@ =~= body_words(*out, extra@));
    v
}

/// Decodes the fields of a batch output behind `x` extra head bytes; only
/// canonical bytes are accepted.
#[verifier::rlimit(60)]
fn decode_body(b: &[u8], x: usize) -> (r: Option<BatchOutput>)
    requires
        x <= 96,
    ensures
        r matches Some(out) ==> 32 + x <= b@.len() && b@ == body_words(
            out,
            b@.subrange(32, 32 + x),
        ),
        r is None ==> forall|o: BatchOutput, e: Seq<u8>|
            e.len() == x ==> b@ != #[trigger] body_words(o, e),
{
    let blen = b.len();
    if blen < 288 + x {
        proof {
            assert forall|o: BatchOutput, e: Seq<u8>| e.len() == x implies b@ != #[trigger] body_words(o, e) by {
                lemma_body_layout(o, e);
                if b@ == body_words(o, e) {
                }
            }
        }
        return None;
    }
    let w0 = read_word_u64(b, 0);
    let w1 = read_word_u64(b, 32 + x);
    let w2 = read_word_u64(b, 64 + x);
    let w3 = read_word_u64(b, 96 + x);
    let w4 = read_word_u64(b, 128 + x);
    let root: [u8; 32] = read_array(b, 160 + x);
    let w5 = read_word_u64(b, 192 + x);
    let (lead, batch_index, off_f, off_u, off_c, nf) = match (w0, w1, w2, w3, w4, w5) {
        (Some(a), Some(c), Some(d), Some(e), Some(f), Some(g)) => (a, c, d, e, f, g),
        _ => {
            proof {
                assert forall|o: BatchOutput, e: Seq<u8>| e.len() == x implies b@ != #[trigger] body_words(o, e) by {
                    lemma_body_layout(o, e);
                    if b@ == body_words(o, e) {
                    }
                }
            }
            return None;
        },
    };
    if lead != 32 || off_f != (160 + x) as u64 {
        proof {
            assert forall|o: BatchOutput, e: Seq<u8>| e.len() == x implies b@ != #[trigger] body_words(o, e) by {
                lemma_body_layout(o, e);
                if b@ == body_words(o, e) {
                    lemma_word_u64_injective(lead, 32);
                    lemma_word_u64_injective(off_f, (160 + x) as u64);
                }
            }
        }
        return None;
    }
    let base = blen - 288 - x;
    if nf > (base / 224) as u64 {
        proof {
            assert forall|o: BatchOutput, e: Seq<u8>| e.len() == x implies b@ != #[trigger] body_words(o, e) by {
                lemma_body_layout(o, e);
                if b@ == body_words(o, e) {
                    lemma_word_u64_injective(nf, o.fills@.len() as u64);
                    assert(224 * o.fills@.len() <= base);
                    assert(o.fills@.len() <= base / 224) by (nonlinear_arith)
                    requires 224 * o.fills@.len() <= base;
                }
            }
        }
        return None;
    }
    let nf = nf as usize;
    assert(224 * nf <= base) by (nonlinear_arith)
        requires
            nf <= base / 224,
    ;
    let fills = match read_fills(b, 224 + x, nf) {
        Some(v) => v,
        None => {
            proof {
                assert forall|o: BatchOutput, e: Seq<u8>| e.len() == x implies b@ != #[trigger] body_words(o, e) by {
                    lemma_body_layout(o, e);
                    if b@ == body_words(o, e) {
                        lemma_word_u64_injective(nf as u64, o.fills@.len() as u64);
                        assert(b@.subrange(224 + x, 224 + x + 224 * nf) == fill_bytes(o.fills@));
                    }
                }
            }
            return None;
        },
    };
    let pu = 224 + x + 224 * nf;
    let nu = match read_word_u64(b, pu) {
        Some(v) => v,
        None => {
            proof {
                assert forall|o: BatchOutput, e: Seq<u8>| e.len() == x implies b@ != #[trigger] body_words(o, e) by {
                    lemma_body_layout(o, e);
                    if b@ == body_words(o, e) {
                        lemma_word_u64_injective(nf as u64, o.fills@.len() as u64);
                    }
                }
            }
            return None;
        },
    };
    if nu > ((base - 224 * nf) / 224) as u64 {
        proof {
            assert forall|o: BatchOutput, e: Seq<u8>| e.len() == x implies b@ != #[trigger] body_words(o, e) by {
                lemma_body_layout(o, e);
                if b@ == body_words(o, e) {
                    lemma_word_u64_injective(nf as u64, o.fills@.len() as u64);
                    lemma_word_u64_injective(nu, o.new_utxos@.len() as u64);
                    assert(224 * o.new_utxos@.len() <= base - 224 * nf);
                    assert(o.new_utxos@.len() <= (base - 224 * nf) / 224) by (nonlinear_arith)
                    requires 224 * o.new_utxos@.len() <= base - 224 * nf, base - 224 * nf >= 0;
                }
            }
        }
        return None;
    }
    let nu = nu as usize;
    assert(224 * nu <= base - 224 * nf) by (nonlinear_arith)
        requires
            nu <= (base - 224 * nf) / 224,
            base - 224 * nf >= 0,
    ;
    let utxos = match read_utxos(b, pu + 32, nu) {
        Some(v) => v,
        None => {
            proof {
                assert forall|o: BatchOutput, e: Seq<u8>| e.len() == x implies b@ != #[trigger] body_words(o, e) by {
                    lemma_body_layout(o, e);
                    if b@ == body_words(o, e) {
                        lemma_word_u64_injective(nf as u64, o.fills@.len() as u64);
                        lemma_word_u64_injective(nu as u64, o.new_utxos@.len() as u64);
                        assert(b@.subrange(pu + 32, pu + 32 + 224 * nu) == utxo_bytes(o.new_utxos@));
                    }
                }
            }
            return None;
        },
    };
    let pc = pu + 32 + 224 * nu;
    let nc = match read_word_u64(b, pc) {
        Some(v) => v,
        None => {
            proof {
                assert forall|o: BatchOutput, e: Seq<u8>| e.len() == x implies b@ != #[trigger] body_words(o, e) by {
                    lemma_body_layout(o, e);
                    if b@ == body_words(o, e) {
                        lemma_word_u64_injective(nf as u64, o.fills@.len() as u64);
                        lemma_word_u64_injective(nu as u64, o.new_utxos@.len() as u64);
                    }
                }
            }
            return None;
        },
    };
    if nc > ((blen - pc - 32) / 32) as u64 || pc + 32 + 32 * (nc as usize) != blen {
        proof {
            assert forall|o: BatchOutput, e: Seq<u8>| e.len() == x implies b@ != #[trigger] body_words(o, e) by {
                lemma_body_layout(o, e);
                if b@ == body_words(o, e) {
                    lemma_word_u64_injective(nf as u64, o.fills@.len() as u64);
                    lemma_word_u64_injective(nu as u64, o.new_utxos@.len() as u64);
                    lemma_word_u64_injective(nc, o.consumed_utxo_ids@.len() as u64);
                    assert(o.consumed_utxo_ids@.len() <= (blen - pc - 32) / 32) by (nonlinear_arith)
                    requires 32 * o.consumed_utxo_ids@.len() == blen - pc - 32;
                }
            }
        }
        return None;
    }
    let nc = nc as usize;
    if off_u != (192 + x + 224 * nf) as u64 || off_c != (224 + x + 224 * nf + 224 * nu) as u64 {
        proof {
            assert forall|o: BatchOutput, e: Seq<u8>| e.len() == x implies b@ != #[trigger] body_words(o, e) by {
                lemma_body_layout(o, e);
                if b@ == body_words(o, e) {
                    lemma_word_u64_injective(nf as u64, o.fills@.len() as u64);
                    lemma_word_u64_injective(nu as u64, o.new_utxos@.len() as u64);
                    lemma_word_u64_injective(off_u, (192 + x + 224 * o.fills@.len()) as u64);
                    lemma_word_u64_injective(off_c, (224 + x + 224 * o.fills@.len() + 224 * o.new_utxos@.len()) as u64);
                }
            }
        }
        return None;
    }
    let consumed_utxo_ids = read_hashes(b, pc + 32, nc);
    let out = BatchOutput {
        batch_index,
        fills,
        new_utxos: utxos,
        consumed_utxo_ids,
        new_utxo_merkle_root: root,
    };
    proof {
        let extra = b@.subrange(32, 32 + x);
        lemma_body_layout(out, extra);
        let w = body_words(out, extra);
        assert(w.len() == b@.len());
        assert forall|j: int| 0 <= j < b@.len() implies w[j] == b@[j] by {
            if j < 32 {
                assert(w.subrange(0, 32)[j] == b@.subrange(0, 32)[j]);
            } else if j < 32 + x {
                assert(w.subrange(32, 32 + x)[j - 32] == b@.subrange(32, 32 + x)[j - 32]);
            } else if j < 64 + x {
                assert(w.subrange(32 + x, 64 + x)[j - 32 - x] == b@.subrange(32 + x, 64 + x)[j - 32 - x]);
            } else if j < 96 + x {
                assert(w.subrange(64 + x, 96 + x)[j - 64 - x] == b@.subrange(64 + x, 96 + x)[j - 64 - x]);
            } else if j < 128 + x {
                assert(w.subrange(96 + x, 128 + x)[j - 96 - x] == b@.subrange(96 + x, 128 + x)[j - 96 - x]);
            } else if j < 160 + x {
                assert(w.subrange(128 + x, 160 + x)[j - 128 - x] == b@.subrange(128 + x, 160 + x)[j - 128 - x]);
            } else if j < 192 + x {
                assert(w.subrange(160 + x, 192 + x)[j - 160 - x] == b@.subrange(160 + x, 192 + x)[j - 160 - x]);
            } else if j < 224 + x {
                assert(w.subrange(192 + x, 224 + x)[j - 192 - x] == b@.subrange(192 + x, 224 + x)[j - 192 - x]);
            } else if j < pu {
                assert(w.subrange(224 + x, pu as int)[j - 224 - x] == b@.subrange(224 + x, pu as int)[j - 224 - x]);
            } else if j < pu + 32 {
                assert(w.subrange(pu as int, pu + 32)[j - pu] == b@.subrange(pu as int, pu + 32)[j - pu]);
            } else if j < pc {
                assert(w.subrange(pu + 32, pc as int)[j - pu - 32] == b@.subrange(pu + 32, pc as int)[j - pu - 32]);
            } else if j < pc + 32 {
                assert(w.subrange(pc as int, pc + 32)[j - pc] == b@.subrange(pc as int, pc + 32)[j - pc]);
            } else {
                assert(w.subrange(pc + 32, blen as int)[j - pc - 32] == b@.subrange(pc + 32, blen as int)[j - pc - 32]);
            }
        }
        assert(b@ =~= w);
    }
    Some(out)
}

impl BatchOutput {
    /// Wire form of the batch output.
    pub fn to_abi_bytes(&self) -> (r: Vec<u8>)
        requires
            output_len(*self) <= usize::MAX,
        ensures
            r@ == output_words(*self),
    {
        let extra: Vec<u8> = Vec::new();
        assert(extra@ =~= Seq::<u8>::empty());
        encode_body(self, &extra)
    }

    /// Decodes the wire form of a batch output; only canonical bytes are
    /// accepted.
    pub fn from_abi_bytes(b: &[u8]) -> (r: Result<BatchOutput, BatchError>)
        ensures
            r matches Ok(out) ==> b@ == output_words(out),
            r is Err ==> forall|o: BatchOutput| b@ != #[trigger] output_words(o),
            r matches Err(e) ==> e == BatchError::DecodeError,
    {
        match decode_body(b, 0) {
            Some(out) => {
                assert(b@.subrange(32, 32) =~= Seq::<u8>::empty());
                Ok(out)
            },
            None => {
                assert forall|o: BatchOutput| b@ != #[trigger] output_words(o) by {
                    assert(Seq::<u8>::empty().len() == 0);
                    assert(b@ != body_words(o, Seq::<u8>::empty()));
                }
                Err(BatchError::DecodeError)
            },
        }
    }
}

/// The bytes determine every field of a batch output and its extra head.
pub proof fn lemma_body_words_injective(a: BatchOutput, b: BatchOutput, ea: Seq<u8>, eb: Seq<u8>)
    requires
        body_words(a, ea) == body_words(b, eb),
        ea.len() == eb.len(),
    ensures
        ea == eb,
        a.batch_index == b.batch_index,
        a.fills@ == b.fills@,
        a.new_utxos@ == b.new_utxos@,
        a.consumed_utxo_ids@ == b.consumed_utxo_ids@,
        a.new_utxo_merkle_root == b.new_utxo_merkle_root,
{
    lemma_body_layout(a, ea);
    lemma_body_layout(b, eb);
    let w = body_words(a, ea);
    let x = ea.len() as int;
    lemma_word_u64_injective(a.batch_index, b.batch_index);
    assert(a.fills@.len() == a.fills.len() && b.fills@.len() == b.fills.len());
    assert(a.new_utxos@.len() == a.new_utxos.len() && b.new_utxos@.len() == b.new_utxos.len());
    assert(a.consumed_utxo_ids@.len() == a.consumed_utxo_ids.len() && b.consumed_utxo_ids@.len()
        == b.consumed_utxo_ids.len());
    assert(a.fills@.len() == b.fills@.len()) by {
        lemma_word_u64_injective(a.fills@.len() as u64, b.fills@.len() as u64);
    }
    assert(a.new_utxos@.len() == b.new_utxos@.len()) by {
        lemma_word_u64_injective(a.new_utxos@.len() as u64, b.new_utxos@.len() as u64);
    }
    assert(a.consumed_utxo_ids@.len() == b.consumed_utxo_ids@.len()) by {
        lemma_word_u64_injective(
            a.consumed_utxo_ids@.len() as u64,
            b.consumed_utxo_ids@.len() as u64,
        );
    }
    assert(a.new_utxo_merkle_root =~= b.new_utxo_merkle_root);
    lemma_fill_bytes(a.fills@);
    lemma_fill_bytes(b.fills@);
    lemma_utxo_bytes(a.new_utxos@);
    lemma_utxo_bytes(b.new_utxos@);
    lemma_hash_bytes(a.consumed_utxo_ids@);
    lemma_hash_bytes(b.consumed_utxo_ids@);
    let nf = a.fills@.len() as int;
    let nu = a.new_utxos@.len() as int;
    assert(fill_bytes(a.fills@) == fill_bytes(b.fills@)) by {
        assert(w.subrange(224 + x, 224 + x + 224 * nf) == fill_bytes(a.fills@));
    }
    assert(utxo_bytes(a.new_utxos@) == utxo_bytes(b.new_utxos@)) by {
        assert(w.subrange(256 + x + 224 * nf, 256 + x + 224 * nf + 224 * nu) == utxo_bytes(
            a.new_utxos@,
        ));
    }
    assert(hash_bytes(a.consumed_utxo_ids@) == hash_bytes(b.consumed_utxo_ids@)) by {
        let pc = 256 + x + 224 * nf + 224 * nu;
        assert(w.subrange(pc + 32, pc + 32 + 32 * a.consumed_utxo_ids@.len()) == hash_bytes(
            a.consumed_utxo_ids@,
        ));
    }
    assert forall|k: int| 0 <= k < a.fills@.len() implies a.fills@[k] == b.fills@[k] by {
        assert(fill_bytes(a.fills@).subrange(224 * k, 224 * k + 224) == fill_words(a.fills@[k]));
        assert(fill_bytes(b.fills@).subrange(224 * k, 224 * k + 224) == fill_words(b.fills@[k]));
        lemma_fill_words_injective(a.fills@[k], b.fills@[k]);
    }
    assert forall|k: int| 0 <= k < a.new_utxos@.len() implies a.new_utxos@[k] == b.new_utxos@[k] by {
        assert(utxo_bytes(a.new_utxos@).subrange(224 * k, 224 * k + 224) == utxo_words(a.new_utxos@[k]));
        assert(utxo_bytes(b.new_utxos@).subrange(224 * k, 224 * k + 224) == utxo_words(b.new_utxos@[k]));
        lemma_utxo_words_injective(a.new_utxos@[k], b.new_utxos@[k]);
    }
    assert forall|k: int| 0 <= k < a.consumed_utxo_ids@.len() implies a.consumed_utxo_ids@[k]
        == b.consumed_utxo_ids@[k] by {
        assert(hash_bytes(a.consumed_utxo_ids@).subrange(32 * k, 32 * k + 32) == hash_words(
            a.consumed_utxo_ids@[k],
        ));
        assert(hash_bytes(b.consumed_utxo_ids@).subrange(32 * k, 32 * k + 32) == hash_words(
            b.consumed_utxo_ids@[k],
        ));
        assert(a.consumed_utxo_ids@[k] =~= b.consumed_utxo_ids@[k]);
    }
    assert(a.fills@ =~= b.fills@);
    assert(a.new_utxos@ =~= b.new_utxos@);
    assert(a.consumed_utxo_ids@ =~= b.consumed_utxo_ids@);
}

/// Round trip of the batch output wire form: the bytes determine every field,
/// so with the decoder accepting exactly the bytes `output_words(v)` and
/// returning such a `v`, decoding an encoding gives back the encoded value.
pub proof fn lemma_output_words_injective(a: BatchOutput, b: BatchOutput)
    requires
        output_words(a) == output_words(b),
    ensures
        a.batch_index == b.batch_index,
        a.fills@ == b.fills@,
        a.new_utxos@ == b.new_utxos@,
        a.consumed_utxo_ids@ == b.consumed_utxo_ids@,
        a.new_utxo_merkle_root == b.new_utxo_merkle_root,
{
    lemma_body_words_injective(a, b, Seq::empty(), Seq::empty());
}

/// Wire form of a standing UTXO with its proof: the UTXO's seven words, the
/// offset of the proof array (nine words in), the leaf index, then the proof
/// array as its length followed by its hashes.
pub open spec fn proven_words(w: UtxoWithProof) -> Seq<u8> {
    utxo_words(w.utxo) + word_u64(288) + word_u64(w.leaf_index as u64) + word_u64(
        w.proof_hashes@.len() as u64,
    ) + hash_bytes(w.proof_hashes@)
}

pub open spec fn proven_size(w: UtxoWithProof) -> int {
    320 + 32 * w.proof_hashes@.len() as int
}

/// Concatenated wire forms of standing UTXOs with proofs.
pub open spec fn proven_bytes(s: Seq<UtxoWithProof>) -> Seq<u8>
    decreases s.len(),
{
    if s.len() == 0 {
        Seq::empty()
    } else {
        proven_bytes(s.drop_last()) + proven_words(s.last())
    }
}

pub open spec fn proven_total(s: Seq<UtxoWithProof>) -> int
    decreases s.len(),
{
    if s.len() == 0 {
        0
    } else {
        proven_total(s.drop_last()) + proven_size(s.last())
    }
}

/// The offset words of an array of `n` dynamic elements, of which `s` are the first.
pub open spec fn offset_words(s: Seq<UtxoWithProof>, n: int) -> Seq<u8>
    decreases s.len(),
{
    if s.len() == 0 {
        Seq::empty()
    } else {
        offset_words(s.drop_last(), n) + word_u64((32 * n + proven_total(s.drop_last())) as u64)
    }
}

/// The array of standing UTXOs: its length, the offsets of its elements
/// (counted from just after the length), then the elements.
pub open spec fn proven_array(s: Seq<UtxoWithProof>) -> Seq<u8> {
    word_u64(s.len() as u64) + offset_words(s, s.len() as int) + proven_bytes(s)
}

pub open spec fn proven_array_len(s: Seq<UtxoWithProof>) -> int {
    32 + 32 * s.len() + proven_total(s)
}

/// Byte length of the wire form of a batch input.
pub open spec fn input_len(x: BatchInput) -> int {
    192 + proven_array_len(x.existing_utxos_with_proofs@) + 192 * x.new_orders@.len() as int
}

/// Wire form of a batch input, as one dynamic tuple: a leading offset word,
/// the head (batch index, prior root, the offsets of the two arrays), then the
/// standing UTXOs and the new orders.
pub open spec fn input_words(x: BatchInput) -> Seq<u8> {
    let e = x.existing_utxos_with_proofs@;
    word_u64(32) + word_u64(x.batch_index) + x.utxo_merkle_root@ + word_u64(128) + word_u64(
        (128 + proven_array_len(e)) as u64,
    ) + proven_array(e) + word_u64(x.new_orders@.len() as u64) + orders_bytes(x.new_orders@)
}

/// Concatenated wire forms of orders.
pub open spec fn orders_bytes(s: Seq<Order>) -> Seq<u8>
    decreases s.len(),
{
    if s.len() == 0 {
        Seq::empty()
    } else {
        orders_bytes(s.drop_last()) + order_words(s.last())
    }
}

proof fn lemma_proven_words(w: UtxoWithProof)
    ensures
        proven_words(w).len() == proven_size(w),
{
    lemma_hash_bytes(w.proof_hashes@);
    lemma_order_words_parts(w.utxo.order);
}

proof fn lemma_proven_bytes(s: Seq<UtxoWithProof>)
    ensures
        proven_bytes(s).len() == proven_total(s),
        proven_total(s) >= 320 * s.len(),
        offset_words(s, s.len() as int).len() == 32 * s.len(),
    decreases s.len(),
{
    if s.len() > 0 {
        lemma_proven_bytes(s.drop_last());
        lemma_proven_words(s.last());
        lemma_offset_words_len(s, s.len() as int);
    }
}

proof fn lemma_offset_words_len(s: Seq<UtxoWithProof>, n: int)
    ensures
        offset_words(s, n).len() == 32 * s.len(),
    decreases s.len(),
{
    if s.len() > 0 {
        lemma_offset_words_len(s.drop_last(), n);
    }
}

impl BatchInput {
    /// Wire form of the batch input.
    pub fn to_abi_bytes(&self) -> (r: Vec<u8>)
        requires
            input_len(*self) <= usize::MAX,
        ensures
            r@ == input_words(*self),
    {
        let e = &self.existing_utxos_with_proofs;
        let ne = e.len();
        proof {
            lemma_proven_bytes(e@);
        }
        // Sizes of the elements, and the length of the standing UTXO array.
        let mut total: usize = 0;
        let mut i: usize = 0;
        while i < ne
            invariant
                i <= ne == e@.len(),
                total == proven_total(e@.take(i as int)),
                proven_total(e@) + 32 + 32 * ne + 192 * self.new_orders@.len() + 192 <= usize::MAX,
            decreases ne - i,
        {
            proof {
                lemma_total_prefix(e@, i as int);
                lemma_total_prefix(e@, i as int + 1);
            }
            total = total + 320 + 32 * e[i].proof_hashes.len();
            assert(e@.take(i as int + 1).drop_last() =~= e@.take(i as int));
            i = i + 1;
        }
        assert(e@.take(ne as int) =~= e@);
        let mut v: Vec<u8> = Vec::new();
        push_word_u64(&mut v, 32);
        push_word_u64(&mut v, self.batch_index);
        crate::bytes::push_array(&mut v, &self.utxo_merkle_root);
        push_word_u64(&mut v, 128);
        push_word_u64(&mut v, (128 + 32 + 32 * ne + total) as u64);
        push_word_u64(&mut v, ne as u64);
        let ghost h = v@;
        let mut acc: usize = 0;
        let mut i: usize = 0;
        while i < ne
            invariant
                i <= ne == e@.len(),
                acc == proven_total(e@.take(i as int)),
                total == proven_total(e@),
                proven_total(e@) + 32 + 32 * ne + 192 * self.new_orders@.len() + 192 <= usize::MAX,
                v@ == h + offset_words(e@.take(i as int), ne as int),
            decreases ne - i,
        {
            proof {
                lemma_total_prefix(e@, i as int);
                lemma_total_prefix(e@, i as int + 1);
            }
            push_word_u64(&mut v, (32 * ne + acc) as u64);
            assert(e@.take(i as int + 1).drop_last() =~= e@.take(i as int));
            acc = acc + 320 + 32 * e[i].proof_hashes.len();
            i = i + 1;
        }
        let ghost h = v@;
        let mut i: usize = 0;
        while i < ne
            invariant
                i <= ne == e@.len(),
                v@ == h + proven_bytes(e@.take(i as int)),
            decreases ne - i,
        {
            let w = &e[i];
            let u = w.utxo.to_abi_bytes();
            push_bytes(&mut v, &u);
            push_word_u64(&mut v, 288);
            push_word_u64(&mut v, w.leaf_index as u64);
            push_word_u64(&mut v, w.proof_hashes.len() as u64);
            let mut k: usize = 0;
            let ghost hk = v@;
            while k < w.proof_hashes.len()
                invariant
                    k <= w.proof_hashes@.len(),
                    v@ == hk + hash_bytes(w.proof_hashes@.take(k as int)),
                decreases w.proof_hashes@.len() - k,
            {
                crate::bytes::push_array(&mut v, &w.proof_hashes[k]);
                assert(w.proof_hashes@.take(k as int + 1).drop_last() =~= w.proof_hashes@.take(
                    k as int,
                ));
                k = k + 1;
            }
            assert(w.proof_hashes@.take(k as int) =~= w.proof_hashes@);
            assert(e@.take(i as int + 1).drop_last() =~= e@.take(i as int));
            i = i + 1;
        }
        let n = &self.new_orders;
        push_word_u64(&mut v, n.len() as u64);
        let ghost h = v@;
        let mut i: usize = 0;
        while i < n.len()
            invariant
                i <= n@.len(),
                v@ == h + orders_bytes(n@.take(i as int)),
            decreases n@.len() - i,
        {
            let w = n[i].to_abi_bytes();
            push_bytes(&mut v, &w);
            assert(n@.take(i as int + 1).drop_last() =~= n@.take(i as int));
            i = i + 1;
        }
        assert(n@.take(n@.len() as int) =~= n@);
        assert(e@.take(ne as int) =~= e@);
        assert(v@ =~= input_words(*self));
        v
    }
}

/// The sizes of a prefix add up to at most the sizes of the whole.
proof fn lemma_total_prefix(s: Seq<UtxoWithProof>, i: int)
    requires
        0 <= i <= s.len(),
    ensures
        proven_total(s.take(i)) <= proven_total(s),
        proven_total(s.take(i)) + 320 * (s.len() - i) <= proven_total(s),
        i < s.len() ==> proven_total(s.take(i + 1)) == proven_total(s.take(i)) + proven_size(s[i]),
    decreases s.len() - i,
{
    if i < s.len() {
        assert(s.take(i + 1).drop_last() =~= s.take(i));
        lemma_total_prefix(s, i + 1);
    } else {
        assert(s.take(i) =~= s);
    }
}

proof fn lemma_orders_bytes(s: Seq<Order>)
    ensures
        orders_bytes(s).len() == 192 * s.len(),
        forall|k: int|
            0 <= k < s.len() ==> #[trigger] orders_bytes(s).subrange(192 * k, 192 * k + 192)
                == order_words(s[k]),
    decreases s.len(),
{
    if s.len() > 0 {
        let init = s.drop_last();
        lemma_orders_bytes(init);
        lemma_order_words_parts(s.last());
        let a = orders_bytes(init);
        let n = s.len();
        assert(192 * (n - 1) + 192 == 192 * n) by (nonlinear_arith);
        assert forall|k: int| 0 <= k < s.len() implies #[trigger] orders_bytes(s).subrange(
            192 * k,
            192 * k + 192,
        ) == order_words(s[k]) by {
            if k < n - 1 {
                assert(192 * k + 192 <= 192 * (n - 1)) by (nonlinear_arith)
                    requires
                        k < n - 1,
                ;
                assert(orders_bytes(s).subrange(192 * k, 192 * k + 192) =~= a.subrange(192 * k, 192 * k + 192));
                assert(init[k] == s[k]);
            } else {
                assert(orders_bytes(s).subrange(192 * k, 192 * k + 192) =~= order_words(s.last()));
            }
        }
    }
}

/// Reads `n` orders laid out one after another from `at`.
fn read_orders(b: &[u8], at: usize, n: usize) -> (r: Option<Vec<Order>>)
    requires
        at + 192 * n <= b@.len(),
    ensures
        r matches Some(v) ==> v@.len() == n && b@.subrange(at as int, at + 192 * n) == orders_bytes(
            v@,
        ),
        r is None ==> forall|s: Seq<Order>|
            s.len() == n ==> b@.subrange(at as int, at + 192 * n) != #[trigger] orders_bytes(s),
{
    let blen = b.len();
    let mut v: Vec<Order> = Vec::new();
    let mut i: usize = 0;
    while i < n
        invariant
            i <= n,
            blen == b@.len(),
            at + 192 * n <= b@.len(),
            v@.len() == i,
            b@.subrange(at as int, at + 192 * i) == orders_bytes(v@),
        decreases n - i,
    {
        assert(192 * i + 192 <= 192 * n) by (nonlinear_arith)
            requires
                i < n,
        ;
        let pos = at + 192 * i;
        match read_order(b, pos) {
            Some(item) => {
                let ghost v0 = v@;
                v.push(item);
                assert(v@.drop_last() =~= v0);
                assert(b@.subrange(at as int, at + 192 * (i + 1)) =~= b@.subrange(at as int, pos as int)
                    + b@.subrange(pos as int, pos + 192));
            },
            None => {
                proof {
                    assert forall|s: Seq<Order>|
                        s.len() == n implies b@.subrange(at as int, at + 192 * n) != #[trigger] orders_bytes(s) by {
                        lemma_orders_bytes(s);
                        if b@.subrange(at as int, at + 192 * n) == orders_bytes(s) {
                            assert(orders_bytes(s).subrange(192 * i, 192 * i + 192) =~= b@.subrange(
                                pos as int,
                                pos + 192,
                            ));
                        }
                    }
                }
                return None;
            },
        }
        i = i + 1;
    }
    Some(v)
}

/// Standing UTXOs with proofs that agree on everything their wire form holds.
pub open spec fn same_proven(a: UtxoWithProof, b: UtxoWithProof) -> bool {
    &&& a.utxo == b.utxo
    &&& a.leaf_index == b.leaf_index
    &&& a.proof_hashes@ == b.proof_hashes@
}

proof fn lemma_proven_parts(w: UtxoWithProof)
    ensures
        proven_words(w).len() == proven_size(w),
        proven_words(w).subrange(0, 224) == utxo_words(w.utxo),
        proven_words(w).subrange(224, 256) == word_u64(288),
        proven_words(w).subrange(256, 288) == word_u64(w.leaf_index as u64),
        proven_words(w).subrange(288, 320) == word_u64(w.proof_hashes@.len() as u64),
        proven_words(w).subrange(320, proven_size(w)) == hash_bytes(w.proof_hashes@),
{
    lemma_hash_bytes(w.proof_hashes@);
    lemma_order_words_parts(w.utxo.order);
    let p = proven_words(w);
    assert(p.subrange(0, 224) =~= utxo_words(w.utxo));
    assert(p.subrange(224, 256) =~= word_u64(288));
    assert(p.subrange(256, 288) =~= word_u64(w.leaf_index as u64));
    assert(p.subrange(288, 320) =~= word_u64(w.proof_hashes@.len() as u64));
    assert(p.subrange(320, proven_size(w)) =~= hash_bytes(w.proof_hashes@));
}

/// Where the elements of an array of standing UTXOs, and their offsets, lie.
proof fn lemma_proven_at(s: Seq<UtxoWithProof>, n: int, k: int)
    requires
        0 <= k < s.len(),
    ensures
        proven_bytes(s).subrange(
            proven_total(s.take(k)),
            proven_total(s.take(k)) + proven_size(s[k]),
        ) == proven_words(s[k]),
        offset_words(s, n).subrange(32 * k, 32 * k + 32) == word_u64(
            (32 * n + proven_total(s.take(k))) as u64,
        ),
    decreases s.len(),
{
    let init = s.drop_last();
    lemma_proven_bytes(init);
    lemma_offset_words_len(init, n);
    lemma_proven_words(s.last());
    if k < s.len() - 1 {
        lemma_proven_at(init, n, k);
        assert(init.take(k) =~= s.take(k));
        assert(init[k] == s[k]);
        lemma_total_prefix(init, k);
        lemma_total_prefix(init, k + 1);
        lemma_proven_words(s[k]);
        assert(proven_total(init.take(k)) + proven_size(s[k]) <= proven_total(init));
        lemma_proven_bytes(s.take(k));
        assert(proven_bytes(s) == proven_bytes(init) + proven_words(s.last()));
        assert(proven_bytes(s).subrange(
            proven_total(s.take(k)),
            proven_total(s.take(k)) + proven_size(s[k]),
        ) =~= proven_bytes(init).subrange(
            proven_total(s.take(k)),
            proven_total(s.take(k)) + proven_size(s[k]),
        ));
        assert(offset_words(s, n).subrange(32 * k, 32 * k + 32) =~= offset_words(init, n).subrange(
            32 * k,
            32 * k + 32,
        ));
    } else {
        assert(s.take(k) =~= init);
        assert(proven_bytes(s).subrange(
            proven_total(s.take(k)),
            proven_total(s.take(k)) + proven_size(s[k]),
        ) =~= proven_words(s.last()));
        assert(offset_words(s, n).subrange(32 * k, 32 * k + 32) =~= word_u64(
            (32 * n + proven_total(init)) as u64,
        ));
    }
}

proof fn lemma_input_layout(x: BatchInput)
    ensures
        ({
            let w = input_words(x);
            let e = x.existing_utxos_with_proofs@;
            let a = proven_array_len(e);
            let nn = x.new_orders@.len() as int;
            &&& w.len() == input_len(x)
            &&& a == 32 + 32 * e.len() + proven_total(e)
            &&& proven_total(e) >= 320 * e.len()
            &&& w.subrange(0, 32) == word_u64(32)
            &&& w.subrange(32, 64) == word_u64(x.batch_index)
            &&& w.subrange(64, 96) == x.utxo_merkle_root@
            &&& w.subrange(96, 128) == word_u64(128)
            &&& w.subrange(128, 160) == word_u64((128 + a) as u64)
            &&& w.subrange(160, 192) == word_u64(e.len() as u64)
            &&& w.subrange(192, 192 + 32 * e.len() as int) == offset_words(e, e.len() as int)
            &&& w.subrange(192 + 32 * e.len() as int, 160 + a) == proven_bytes(e)
            &&& w.subrange(160 + a, 192 + a) == word_u64(nn as u64)
            &&& w.subrange(192 + a, 192 + a + 192 * nn) == orders_bytes(x.new_orders@)
        }),
{
    let e = x.existing_utxos_with_proofs@;
    lemma_proven_bytes(e);
    lemma_orders_bytes(x.new_orders@);
    let w = input_words(x);
    let a = proven_array_len(e);
    let nn = x.new_orders@.len() as int;
    assert(w.subrange(0, 32) =~= word_u64(32));
    assert(w.subrange(32, 64) =~= word_u64(x.batch_index));
    assert(w.subrange(64, 96) =~= x.utxo_merkle_root@);
    assert(w.subrange(96, 128) =~= word_u64(128));
    assert(w.subrange(128, 160) =~= word_u64((128 + a) as u64));
    assert(w.subrange(160, 192) =~= word_u64(e.len() as u64));
    assert(w.subrange(192, 192 + 32 * e.len() as int) =~= offset_words(e, e.len() as int));
    assert(w.subrange(192 + 32 * e.len() as int, 160 + a) =~= proven_bytes(e));
    assert(w.subrange(160 + a, 192 + a) =~= word_u64(nn as u64));
    assert(w.subrange(192 + a, 192 + a + 192 * nn) =~= orders_bytes(x.new_orders@));
}

proof fn lemma_total_same(a: Seq<UtxoWithProof>, b: Seq<UtxoWithProof>)
    requires
        a.len() == b.len(),
        forall|j: int| 0 <= j < a.len() ==> same_proven(#[trigger] a[j], b[j]),
    ensures
        proven_total(a) == proven_total(b),
    decreases a.len(),
{
    if a.len() > 0 {
        assert forall|j: int| 0 <= j < a.drop_last().len() implies same_proven(
            #[trigger] a.drop_last()[j],
            b.drop_last()[j],
        ) by {
            assert(a.drop_last()[j] == a[j] && b.drop_last()[j] == b[j]);
        }
        lemma_total_same(a.drop_last(), b.drop_last());
        assert(same_proven(a[a.len() - 1], b[b.len() - 1]));
    }
}

proof fn lemma_hash_bytes_injective(a: Seq<[u8; 32]>, b: Seq<[u8; 32]>)
    requires
        a.len() == b.len(),
        hash_bytes(a) == hash_bytes(b),
    ensures
        a == b,
{
    lemma_hash_bytes(a);
    lemma_hash_bytes(b);
    assert forall|k: int| 0 <= k < a.len() implies a[k] == b[k] by {
        assert(hash_bytes(a).subrange(32 * k, 32 * k + 32) == hash_words(a[k]));
        assert(hash_bytes(b).subrange(32 * k, 32 * k + 32) == hash_words(b[k]));
        assert(a[k] =~= b[k]);
    }
    assert(a =~= b);
}

/// Where the offset and the fields of standing UTXO `k` lie in the wire form
/// of a batch input, given the sizes of the elements before it.
proof fn lemma_element_at(b: Seq<u8>, x: BatchInput, k: int, acc: int)
    requires
        input_words(x) == b,
        0 <= k < x.existing_utxos_with_proofs@.len(),
        proven_total(x.existing_utxos_with_proofs@.take(k)) == acc,
    ensures
        ({
            let e = x.existing_utxos_with_proofs@;
            let ne = e.len() as int;
            let w = e[k];
            let np = w.proof_hashes@.len() as int;
            let p = 192 + 32 * ne + acc;
            &&& b.subrange(192 + 32 * k, 224 + 32 * k) == word_u64((32 * ne + acc) as u64)
            &&& b.subrange(p, p + 224) == utxo_words(w.utxo)
            &&& b.subrange(p + 224, p + 256) == word_u64(288)
            &&& b.subrange(p + 256, p + 288) == word_u64(w.leaf_index as u64)
            &&& b.subrange(p + 288, p + 320) == word_u64(np as u64)
            &&& b.subrange(p + 320, p + 320 + 32 * np) == hash_bytes(w.proof_hashes@)
            &&& p + 320 + 32 * np + 320 * (ne - k - 1) + 32 <= b.len()
        }),
{
    let e = x.existing_utxos_with_proofs@;
    let ne = e.len() as int;
    let w = e[k];
    let np = w.proof_hashes@.len() as int;
    let p = 192 + 32 * ne + acc;
    lemma_input_layout(x);
    lemma_proven_at(e, ne, k);
    lemma_proven_parts(w);
    lemma_total_prefix(e, k);
    lemma_total_prefix(e, k + 1);
    lemma_proven_bytes(e.take(k));
    let ow = offset_words(e, ne);
    assert(b.subrange(192 + 32 * k, 224 + 32 * k) =~= ow.subrange(32 * k, 32 * k + 32));
    let pb = proven_bytes(e);
    let elem = pb.subrange(acc, acc + proven_size(w));
    assert(b.subrange(p, p + proven_size(w)) =~= elem);
    let pw = proven_words(w);
    assert(b.subrange(p, p + 224) =~= pw.subrange(0, 224));
    assert(b.subrange(p + 224, p + 256) =~= pw.subrange(224, 256));
    assert(b.subrange(p + 256, p + 288) =~= pw.subrange(256, 288));
    assert(b.subrange(p + 288, p + 320) =~= pw.subrange(288, 320));
    assert(b.subrange(p + 320, p + 320 + 32 * np) =~= pw.subrange(320, proven_size(w)));
}

impl BatchInput {
    /// Decodes the wire form of a batch input; only canonical bytes are
    /// accepted.
    #[verifier::rlimit(80)]
    pub fn from_abi_bytes(b: &[u8]) -> (r: Result<BatchInput, BatchError>)
        ensures
            r matches Ok(x) ==> b@ == input_words(x),
            r is Err ==> forall|x: BatchInput| b@ != #[trigger] input_words(x),
            r matches Err(e) ==> e == BatchError::DecodeError,
    {
        let blen = b.len();
        if blen < 224 {
            proof {
                assert forall|x: BatchInput| b@ != #[trigger] input_words(x) by {
                    lemma_input_layout(x);
                    if b@ == input_words(x) {
                    }
                }
            }
            return Err(BatchError::DecodeError);
        }
        let w0 = read_word_u64(b, 0);
        let w1 = read_word_u64(b, 32);
        let root: [u8; 32] = read_array(b, 64);
        let w3 = read_word_u64(b, 96);
        let w4 = read_word_u64(b, 128);
        let w5 = read_word_u64(b, 160);
        let (lead, batch_index, off_e, off_n, ne) = match (w0, w1, w3, w4, w5) {
            (Some(a), Some(c), Some(d), Some(f), Some(g)) => (a, c, d, f, g),
            _ => {
                proof {
                    assert forall|x: BatchInput| b@ != #[trigger] input_words(x) by {
                        lemma_input_layout(x);
                        if b@ == input_words(x) {
                        }
                    }
                }
                return Err(BatchError::DecodeError);
            },
        };
        if lead != 32 || off_e != 128 {
            proof {
                assert forall|x: BatchInput| b@ != #[trigger] input_words(x) by {
                    lemma_input_layout(x);
                    if b@ == input_words(x) {
                        lemma_word_u64_injective(lead, 32);
                        lemma_word_u64_injective(off_e, 128);
                    }
                }
            }
            return Err(BatchError::DecodeError);
        }
        if ne > ((blen - 224) / 352) as u64 {
            proof {
                assert forall|x: BatchInput| b@ != #[trigger] input_words(x) by {
                    lemma_input_layout(x);
                    if b@ == input_words(x) {
                        let e = x.existing_utxos_with_proofs@;
                        assert(e.len() == x.existing_utxos_with_proofs.len());
                        lemma_word_u64_injective(ne, e.len() as u64);
                        assert(e.len() <= (blen - 224) / 352) by (nonlinear_arith)
                        requires 352 * e.len() <= blen - 224, blen >= 224;
                    }
                }
            }
            return Err(BatchError::DecodeError);
        }
        let ne = ne as usize;
        assert(352 * ne <= blen - 224) by (nonlinear_arith)
            requires
                ne <= (blen - 224) / 352,
                blen >= 224,
        ;
        proof {
            assert forall|x: BatchInput| #[trigger] input_words(x) == b@ implies x.existing_utxos_with_proofs@.len() == ne by {
                lemma_input_layout(x);
                let e = x.existing_utxos_with_proofs@;
                assert(e.len() == x.existing_utxos_with_proofs.len());
                lemma_word_u64_injective(ne as u64, e.len() as u64);
            }
        }
        let mut v: Vec<UtxoWithProof> = Vec::new();
        let mut acc: usize = 0;
        let mut k: usize = 0;
        while k < ne
            invariant
                k <= ne,
                blen == b@.len(),
                blen >= 224,
                v@.len() == k,
                acc == proven_total(v@),
                224 + 32 * ne + acc + 320 * (ne - k) <= blen,
                b@.subrange(192, 192 + 32 * k) == offset_words(v@, ne as int),
                b@.subrange(192 + 32 * ne, 192 + 32 * ne + acc) == proven_bytes(v@),
                forall|x: BatchInput|
                    #[trigger] input_words(x) == b@ ==> x.existing_utxos_with_proofs@.len() == ne
                        && forall|j: int|
                        0 <= j < k ==> same_proven(
                            #[trigger] x.existing_utxos_with_proofs@[j],
                            v@[j],
                        ),
            decreases ne - k,
        {
            proof {
                assert forall|x: BatchInput| #[trigger] input_words(x) == b@ implies x.existing_utxos_with_proofs@.take(k as int).len() == v@.len()
                    && forall|j: int| 0 <= j < k ==> same_proven(#[trigger] x.existing_utxos_with_proofs@.take(k as int)[j], v@[j]) by {
                    assert forall|j: int| 0 <= j < k implies same_proven(#[trigger] x.existing_utxos_with_proofs@.take(k as int)[j], v@[j]) by {
                        assert(x.existing_utxos_with_proofs@.take(k as int)[j] == x.existing_utxos_with_proofs@[j]);
                    }
                }
            }
            let o = read_word_u64(b, 192 + 32 * k);
            let p = 192 + 32 * ne + acc;
            let expected = (32 * ne + acc) as u64;
            match o {
                Some(o) => {
                    if o != expected {
                        proof {
                            assert forall|x: BatchInput| b@ != #[trigger] input_words(x) by {
                                lemma_input_layout(x);
                                if b@ == input_words(x) {
                                    let e = x.existing_utxos_with_proofs@;
                                    lemma_total_same(e.take(k as int), v@);
                                    lemma_element_at(b@, x, k as int, acc as int);
                                    lemma_word_u64_injective(o, expected);
                                }
                            }
                        }
                        return Err(BatchError::DecodeError);
                    }
                },
                None => {
                    proof {
                        assert forall|x: BatchInput| b@ != #[trigger] input_words(x) by {
                            lemma_input_layout(x);
                            if b@ == input_words(x) {
                                let e = x.existing_utxos_with_proofs@;
                                lemma_total_same(e.take(k as int), v@);
                                lemma_element_at(b@, x, k as int, acc as int);
                            }
                        }
                    }
                    return Err(BatchError::DecodeError);
                },
            }
            let utxo = match read_utxo(b, p) {
                Some(u) => u,
                None => {
                    proof {
                        assert forall|x: BatchInput| b@ != #[trigger] input_words(x) by {
                            lemma_input_layout(x);
                            if b@ == input_words(x) {
                                let e = x.existing_utxos_with_proofs@;
                                lemma_total_same(e.take(k as int), v@);
                                lemma_element_at(b@, x, k as int, acc as int);
                            }
                        }
                    }
                    return Err(BatchError::DecodeError);
                },
            };
            let (tag, leaf, np) = match (read_word_u64(b, p + 224), read_word_u64(b, p + 256), read_word_u64(b, p + 288)) {
                (Some(t), Some(l), Some(n)) => (t, l, n),
                _ => {
                    proof {
                        assert forall|x: BatchInput| b@ != #[trigger] input_words(x) by {
                            lemma_input_layout(x);
                            if b@ == input_words(x) {
                                let e = x.existing_utxos_with_proofs@;
                                lemma_total_same(e.take(k as int), v@);
                                lemma_element_at(b@, x, k as int, acc as int);
                            }
                        }
                    }
                    return Err(BatchError::DecodeError);
                },
            };
            let rest = blen - p - 320 - 320 * (ne - 1 - k) - 32;
            if tag != 288 || leaf > usize::MAX as u64 || np > (rest / 32) as u64 {
            proof {
                assert forall|x: BatchInput| b@ != #[trigger] input_words(x) by {
                    lemma_input_layout(x);
                    if b@ == input_words(x) {
                        let e = x.existing_utxos_with_proofs@;
                        lemma_total_same(e.take(k as int), v@);
                        lemma_element_at(b@, x, k as int, acc as int);
                        let np_x = e[k as int].proof_hashes@.len();
                        assert(np_x == e[k as int].proof_hashes.len());
                        lemma_word_u64_injective(tag, 288);
                        lemma_word_u64_injective(leaf, e[k as int].leaf_index as u64);
                        lemma_word_u64_injective(np, np_x as u64);
                        assert(np_x <= rest / 32) by (nonlinear_arith)
                        requires 32 * np_x <= rest;
                    }
                }
            }
            return Err(BatchError::DecodeError);
            }
            let np = np as usize;
            assert(32 * np <= rest) by (nonlinear_arith)
                requires
                    np <= rest / 32,
            ;
            let proof_hashes = read_hashes(b, p + 320, np);
            let item = UtxoWithProof { utxo, proof_hashes, leaf_index: leaf as usize };
            proof {
                lemma_proven_parts(item);
                let pw = proven_words(item);
                assert(b@.subrange(p as int, p + 320 + 32 * np) =~= pw) by {
                    assert forall|j: int| 0 <= j < pw.len() implies b@[p + j] == pw[j] by {
                        if j < 224 {
                            assert(b@.subrange(p as int, p + 224)[j] == pw.subrange(0, 224)[j]);
                        } else if j < 256 {
                            assert(b@.subrange(p + 224, p + 256)[j - 224] == pw.subrange(224, 256)[j - 224]);
                        } else if j < 288 {
                            assert(b@.subrange(p + 256, p + 288)[j - 256] == pw.subrange(256, 288)[j - 256]);
                        } else if j < 320 {
                            assert(b@.subrange(p + 288, p + 320)[j - 288] == pw.subrange(288, 320)[j - 288]);
                        } else {
                            assert(b@.subrange(p + 320, p + 320 + 32 * np)[j - 320] == pw.subrange(320, proven_size(item))[j - 320]);
                        }
                    }
                }
                assert forall|x: BatchInput| #[trigger] input_words(x) == b@ implies same_proven(
                    x.existing_utxos_with_proofs@[k as int],
                    item,
                ) by {
                    let e = x.existing_utxos_with_proofs@;
                    lemma_total_same(e.take(k as int), v@);
                    lemma_element_at(b@, x, k as int, acc as int);
                    lemma_utxo_words_injective(e[k as int].utxo, utxo);
                    lemma_word_u64_injective(leaf, e[k as int].leaf_index as u64);
                    assert(e[k as int].proof_hashes@.len() == e[k as int].proof_hashes.len());
                    lemma_word_u64_injective(np as u64, e[k as int].proof_hashes@.len() as u64);
                    lemma_hash_bytes_injective(e[k as int].proof_hashes@, proof_hashes@);
                }
            }
            let ghost v0 = v@;
            v.push(item);
            assert(v@.drop_last() =~= v0);
            assert(b@.subrange(192, 192 + 32 * (k + 1)) =~= b@.subrange(192, 192 + 32 * k) + b@.subrange(192 + 32 * k, 224 + 32 * k));
            assert(b@.subrange(192 + 32 * ne, p + 320 + 32 * np) =~= b@.subrange(192 + 32 * ne, p as int) + b@.subrange(p as int, p + 320 + 32 * np));
            acc = acc + 320 + 32 * np;
            k = k + 1;
        }
        let a = 32 + 32 * ne + acc;
        if off_n != (128 + a) as u64 {
            proof {
                assert forall|x: BatchInput| b@ != #[trigger] input_words(x) by {
                    lemma_input_layout(x);
                    if b@ == input_words(x) {
                        let e = x.existing_utxos_with_proofs@;
                        assert(e.take(ne as int) =~= e);
                        lemma_total_same(e, v@);
                        lemma_word_u64_injective(off_n, (128 + a) as u64);
                    }
                }
            }
            return Err(BatchError::DecodeError);
        }
        let nn = match read_word_u64(b, 160 + a) {
            Some(n) => n,
            None => {
                proof {
                    assert forall|x: BatchInput| b@ != #[trigger] input_words(x) by {
                        lemma_input_layout(x);
                        if b@ == input_words(x) {
                            let e = x.existing_utxos_with_proofs@;
                            assert(e.take(ne as int) =~= e);
                            lemma_total_same(e, v@);
                        }
                    }
                }
                return Err(BatchError::DecodeError);
            },
        };
        if nn > ((blen - 192 - a) / 192) as u64 || 192 + a + 192 * (nn as usize) != blen {
            proof {
                assert forall|x: BatchInput| b@ != #[trigger] input_words(x) by {
                    lemma_input_layout(x);
                    if b@ == input_words(x) {
                        let e = x.existing_utxos_with_proofs@;
                        assert(e.take(ne as int) =~= e);
                        lemma_total_same(e, v@);
                        let nn_x = x.new_orders@.len();
                        assert(nn_x == x.new_orders.len());
                        lemma_word_u64_injective(nn, nn_x as u64);
                        assert(nn_x <= (blen - 192 - a) / 192) by (nonlinear_arith)
                        requires 192 * nn_x == blen - 192 - a;
                    }
                }
            }
            return Err(BatchError::DecodeError);
        }
        let nn = nn as usize;
        let new_orders = match read_orders(b, 192 + a, nn) {
            Some(o) => o,
            None => {
                proof {
                    assert forall|x: BatchInput| b@ != #[trigger] input_words(x) by {
                        lemma_input_layout(x);
                        if b@ == input_words(x) {
                            let e = x.existing_utxos_with_proofs@;
                            assert(e.take(ne as int) =~= e);
                            lemma_total_same(e, v@);
                            lemma_word_u64_injective(nn as u64, x.new_orders@.len() as u64);
                        }
                    }
                }
                return Err(BatchError::DecodeError);
            },
        };
        let x = BatchInput {
            batch_index,
            utxo_merkle_root: root,
            existing_utxos_with_proofs: v,
            new_orders,
        };
        proof {
            lemma_input_layout(x);
            let w = input_words(x);
            let e0 = 192 + 32 * ne;
            assert(w.len() == b@.len());
            assert forall|j: int| 0 <= j < b@.len() implies w[j] == b@[j] by {
                if j < 32 {
                    assert(w.subrange(0, 32)[j] == b@.subrange(0, 32)[j]);
                } else if j < 64 {
                    assert(w.subrange(32, 64)[j - 32] == b@.subrange(32, 64)[j - 32]);
                } else if j < 96 {
                    assert(w.subrange(64, 96)[j - 64] == b@.subrange(64, 96)[j - 64]);
                } else if j < 128 {
                    assert(w.subrange(96, 128)[j - 96] == b@.subrange(96, 128)[j - 96]);
                } else if j < 160 {
                    assert(w.subrange(128, 160)[j - 128] == b@.subrange(128, 160)[j - 128]);
                } else if j < 192 {
                    assert(w.subrange(160, 192)[j - 160] == b@.subrange(160, 192)[j - 160]);
                } else if j < e0 {
                    assert(w.subrange(192, e0 as int)[j - 192] == b@.subrange(192, e0 as int)[j - 192]);
                } else if j < 160 + a {
                    assert(w.subrange(e0 as int, 160 + a)[j - e0] == b@.subrange(e0 as int, 160 + a)[j - e0]);
                } else if j < 192 + a {
                    assert(w.subrange(160 + a, 192 + a)[j - 160 - a] == b@.subrange(160 + a, 192 + a)[j - 160 - a]);
                } else {
                    assert(w.subrange(192 + a, blen as int)[j - 192 - a] == b@.subrange(192 + a, blen as int)[j - 192 - a]);
                }
            }
            assert(b@ =~= w);
        }
        Ok(x)
    }
}

proof fn lemma_input_prefix_same(a: BatchInput, b: BatchInput, k: int)
    requires
        input_words(a) == input_words(b),
        a.existing_utxos_with_proofs@.len() == b.existing_utxos_with_proofs@.len(),
        0 <= k <= a.existing_utxos_with_proofs@.len(),
    ensures
        forall|j: int|
            0 <= j < k ==> same_proven(
                #[trigger] a.existing_utxos_with_proofs@[j],
                b.existing_utxos_with_proofs@[j],
            ),
    decreases k,
{
    if k > 0 {
        lemma_input_prefix_same(a, b, k - 1);
        let (ea, eb) = (a.existing_utxos_with_proofs@, b.existing_utxos_with_proofs@);
        let j = k - 1;
        assert forall|i: int| 0 <= i < j implies same_proven(#[trigger] ea.take(j)[i], eb.take(j)[i]) by {
            assert(ea.take(j)[i] == ea[i] && eb.take(j)[i] == eb[i]);
        }
        lemma_total_same(ea.take(j), eb.take(j));
        let acc = proven_total(ea.take(j));
        lemma_element_at(input_words(a), a, j, acc);
        lemma_element_at(input_words(b), b, j, acc);
        lemma_utxo_words_injective(ea[j].utxo, eb[j].utxo);
        lemma_word_u64_injective(ea[j].leaf_index as u64, eb[j].leaf_index as u64);
        assert(ea[j].proof_hashes@.len() == ea[j].proof_hashes.len());
        assert(eb[j].proof_hashes@.len() == eb[j].proof_hashes.len());
        lemma_word_u64_injective(
            ea[j].proof_hashes@.len() as u64,
            eb[j].proof_hashes@.len() as u64,
        );
        lemma_hash_bytes_injective(ea[j].proof_hashes@, eb[j].proof_hashes@);
    }
}

/// Round trip of the batch input wire form: the bytes determine every field
/// (each standing UTXO up to the identity of its proof vector), so with the
/// decoder accepting exactly the bytes `input_words(v)` and returning such a
/// `v`, decoding an encoding gives back the encoded value.
pub proof fn lemma_input_words_injective(a: BatchInput, b: BatchInput)
    requires
        input_words(a) == input_words(b),
    ensures
        a.batch_index == b.batch_index,
        a.utxo_merkle_root == b.utxo_merkle_root,
        a.existing_utxos_with_proofs@.len() == b.existing_utxos_with_proofs@.len(),
        forall|j: int|
            0 <= j < a.existing_utxos_with_proofs@.len() ==> same_proven(
                #[trigger] a.existing_utxos_with_proofs@[j],
                b.existing_utxos_with_proofs@[j],
            ),
        a.new_orders@ == b.new_orders@,
{
    lemma_input_layout(a);
    lemma_input_layout(b);
    let (ea, eb) = (a.existing_utxos_with_proofs@, b.existing_utxos_with_proofs@);
    lemma_word_u64_injective(a.batch_index, b.batch_index);
    assert(a.utxo_merkle_root =~= b.utxo_merkle_root);
    assert(ea.len() == a.existing_utxos_with_proofs.len() && eb.len() == b.existing_utxos_with_proofs.len());
    lemma_word_u64_injective(ea.len() as u64, eb.len() as u64);
    lemma_input_prefix_same(a, b, ea.len() as int);
    assert(ea.take(ea.len() as int) =~= ea && eb.take(eb.len() as int) =~= eb);
    lemma_total_same(ea, eb);
    let na = a.new_orders@;
    let nb = b.new_orders@;
    assert(na.len() == a.new_orders.len() && nb.len() == b.new_orders.len());
    let al = proven_array_len(ea);
    lemma_word_u64_injective(na.len() as u64, nb.len() as u64);
    assert(orders_bytes(na) == orders_bytes(nb)) by {
        assert(input_words(a).subrange(192 + al, 192 + al + 192 * na.len()) == orders_bytes(na));
    }
    lemma_orders_bytes(na);
    lemma_orders_bytes(nb);
    assert forall|k: int| 0 <= k < na.len() implies na[k] == nb[k] by {
        assert(orders_bytes(na).subrange(192 * k, 192 * k + 192) == order_words(na[k]));
        assert(orders_bytes(nb).subrange(192 * k, 192 * k + 192) == order_words(nb[k]));
        lemma_order_words_injective(na[k], nb[k]);
    }
    assert(na =~= nb);
}

/// The three words of a state commitment.
pub open spec fn commitment_words(c: StateCommitment) -> Seq<u8> {
    c.id@ + c.digest@ + c.config_id@
}

/// Wire form of a journal: one dynamic tuple whose head holds the commitment's
/// words and then the fields of the batch output.
pub open spec fn journal_words(j: Journal) -> Seq<u8> {
    body_words(j.output, commitment_words(j.state_commitment))
}

impl Journal {
    /// Wire form of the journal.
    pub fn to_abi_bytes(&self) -> (r: Vec<u8>)
        requires
            body_len(self.output, 96) <= usize::MAX,
        ensures
            r@ == journal_words(*self),
    {
        let mut extra: Vec<u8> = Vec::new();
        crate::bytes::push_array(&mut extra, &self.state_commitment.id);
        crate::bytes::push_array(&mut extra, &self.state_commitment.digest);
        crate::bytes::push_array(&mut extra, &self.state_commitment.config_id);
        assert(extra@ =~= commitment_words(self.state_commitment));
        encode_body(&self.output, &extra)
    }

    /// Decodes the wire form of a journal; only canonical bytes are accepted.
    pub fn from_abi_bytes(b: &[u8]) -> (r: Result<Journal, BatchError>)
        ensures
            r matches Ok(j) ==> b@ == journal_words(j),
            r is Err ==> forall|j: Journal| b@ != #[trigger] journal_words(j),
            r matches Err(e) ==> e == BatchError::DecodeError,
    {
        match decode_body(b, 96) {
            Some(output) => {
                let id: [u8; 32] = read_array(b, 32);
                let digest: [u8; 32] = read_array(b, 64);
                let config_id: [u8; 32] = read_array(b, 96);
                let state_commitment = StateCommitment { id, digest, config_id };
                assert(commitment_words(state_commitment) =~= b@.subrange(32, 128));
                Ok(Journal { state_commitment, output })
            },
            None => {
                assert forall|j: Journal| b@ != #[trigger] journal_words(j) by {
                    assert(commitment_words(j.state_commitment).len() == 96);
                    assert(b@ != body_words(j.output, commitment_words(j.state_commitment)));
                }
                Err(BatchError::DecodeError)
            },
        }
    }
}

/// Round trip of the journal wire form: the bytes determine the commitment
/// and every field of the output.
pub proof fn lemma_journal_words_injective(a: Journal, b: Journal)
    requires
        journal_words(a) == journal_words(b),
    ensures
        a.state_commitment == b.state_commitment,
        a.output.batch_index == b.output.batch_index,
        a.output.fills@ == b.output.fills@,
        a.output.new_utxos@ == b.output.new_utxos@,
        a.output.consumed_utxo_ids@ == b.output.consumed_utxo_ids@,
        a.output.new_utxo_merkle_root == b.output.new_utxo_merkle_root,
{
    let (ca, cb) = (commitment_words(a.state_commitment), commitment_words(b.state_commitment));
    lemma_body_words_injective(a.output, b.output, ca, cb);
    assert(ca.subrange(0, 32) =~= a.state_commitment.id@);
    assert(cb.subrange(0, 32) =~= b.state_commitment.id@);
    assert(ca.subrange(32, 64) =~= a.state_commitment.digest@);
    assert(cb.subrange(32, 64) =~= b.state_commitment.digest@);
    assert(ca.subrange(64, 96) =~= a.state_commitment.config_id@);
    assert(cb.subrange(64, 96) =~= b.state_commitment.config_id@);
    assert(a.state_commitment.id =~= b.state_commitment.id);
    assert(a.state_commitment.digest =~= b.state_commitment.digest);
    assert(a.state_commitment.config_id =~= b.state_commitment.config_id);
}

} // verus!
