//! Fixed-width integer serialisation.
use vstd::prelude::*;

verus! {

/// Byte `k` (counted from the least significant) of `x`.
pub open spec fn byte_at(x: u64, k: int) -> u8 {
    ((x >> ((8 * k) as u64)) & 0xff) as u8
}

/// The eight little-endian bytes of `x`.
pub open spec fn le8(x: u64) -> Seq<u8> {
    Seq::new(8, |k: int| byte_at(x, k))
}

/// Eight bytes determine the integer they were taken from.
pub proof fn lemma_le8_injective(x: u64, y: u64)
    requires
        le8(x) == le8(y),
    ensures
        x == y,
{
    assert forall|k: int| 0 <= k < 8 implies byte_at(x, k) == byte_at(y, k) by {
        assert(le8(x)[k] == byte_at(x, k));
        assert(le8(y)[k] == byte_at(y, k));
        assert(le8(x)[k] == le8(y)[k]);
    }
    let (b0, b1, b2, b3) = (byte_at(x, 0), byte_at(x, 1), byte_at(x, 2), byte_at(x, 3));
    assert(b0 == ((x >> 0u64) & 0xff) as u8);
    assert(byte_at(y, 0) == ((y >> 0u64) & 0xff) as u8);
    assert(b1 == ((x >> 8u64) & 0xff) as u8);
    assert(byte_at(y, 1) == ((y >> 8u64) & 0xff) as u8);
    assert(b2 == ((x >> 16u64) & 0xff) as u8);
    assert(byte_at(y, 2) == ((y >> 16u64) & 0xff) as u8);
    assert(b3 == ((x >> 24u64) & 0xff) as u8);
    assert(byte_at(y, 3) == ((y >> 24u64) & 0xff) as u8);
    assert(byte_at(x, 4) == ((x >> 32u64) & 0xff) as u8);
    assert(byte_at(y, 4) == ((y >> 32u64) & 0xff) as u8);
    assert(byte_at(x, 5) == ((x >> 40u64) & 0xff) as u8);
    assert(byte_at(y, 5) == ((y >> 40u64) & 0xff) as u8);
    assert(byte_at(x, 6) == ((x >> 48u64) & 0xff) as u8);
    assert(byte_at(y, 6) == ((y >> 48u64) & 0xff) as u8);
    assert(byte_at(x, 7) == ((x >> 56u64) & 0xff) as u8);
    assert(byte_at(y, 7) == ((y >> 56u64) & 0xff) as u8);
    assert(
        ((x >> 0u64) & 0xff) as u8 == ((y >> 0u64) & 0xff) as u8
        && ((x >> 8u64) & 0xff) as u8 == ((y >> 8u64) & 0xff) as u8
        && ((x >> 16u64) & 0xff) as u8 == ((y >> 16u64) & 0xff) as u8
        && ((x >> 24u64) & 0xff) as u8 == ((y >> 24u64) & 0xff) as u8
        && ((x >> 32u64) & 0xff) as u8 == ((y >> 32u64) & 0xff) as u8
        && ((x >> 40u64) & 0xff) as u8 == ((y >> 40u64) & 0xff) as u8
        && ((x >> 48u64) & 0xff) as u8 == ((y >> 48u64) & 0xff) as u8
        && ((x >> 56u64) & 0xff) as u8 == ((y >> 56u64) & 0xff) as u8
        ==> x == y
    ) by (bit_vector);
}

/// Appends the eight little-endian bytes of `x`.
pub fn push_le8(v: &mut Vec<u8>, x: u64)
    ensures
        final(v)@ == old(v)@ + le8(x),
{
    let ghost start = v@;
    let mut k: u64 = 0;
    while k < 8
        invariant
            k <= 8,
            v@ == start + le8(x).take(k as int),
        decreases 8 - k,
    {
        let b: u8 = ((x >> (8 * k)) & 0xff) as u8;
        assert(b == byte_at(x, k as int));
        v.push(b);
        assert(le8(x).take(k as int + 1) =~= le8(x).take(k as int).push(b));
        k = k + 1;
    }
    assert(le8(x).take(8) =~= le8(x));
}

/// Appends the bytes of a fixed-size array.
pub fn push_array<const N: usize>(v: &mut Vec<u8>, a: &[u8; N])
    ensures
        final(v)@ == old(v)@ + a@,
{
    let ghost start = v@;
    let mut k: usize = 0;
    while k < N
        invariant
            k <= N,
            N == a@.len(),
            v@ == start + a@.take(k as int),
        decreases N - k,
    {
        v.push(a[k]);
        assert(a@.take(k as int + 1) =~= a@.take(k as int).push(a@[k as int]));
        k = k + 1;
    }
    assert(a@.take(N as int) =~= a@);
}

/// Whether two hashes are equal, byte for byte.
pub fn hash_eq(a: &[u8; 32], b: &[u8; 32]) -> (r: bool)
    ensures
        r == (a@ == b@),
{
    let mut i: usize = 0;
    while i < 32
        invariant
            i <= 32,
            a@.len() == 32 && b@.len() == 32,
            forall|j: int| 0 <= j < i ==> a@[j] == b@[j],
        decreases 32 - i,
    {
        if a[i] != b[i] {
            return false;
        }
        i = i + 1;
    }
    assert(a@ =~= b@);
    true
}

} // verus!
