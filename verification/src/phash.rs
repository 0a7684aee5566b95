//! Perceptual hashes and their distance metric.
//!
//! A hash is a fixed-size bit vector, carried as its raw bytes. Two hashes
//! count as duplicates of each other when their Hamming distance falls below
//! a threshold.

use vstd::prelude::*;

verus! {

/// Number of set bits in a byte.
pub open spec fn popcount(b: u8) -> u8 {
    ((b & 1) + ((b >> 1u8) & 1) + ((b >> 2u8) & 1) + ((b >> 3u8) & 1) + ((b >> 4u8) & 1) + ((b
        >> 5u8) & 1) + ((b >> 6u8) & 1) + ((b >> 7u8) & 1)) as u8
}

/// Hamming distance between two bit vectors given as bytes: the number of
/// bit positions at which they differ, over the bytes both vectors have.
pub open spec fn hamming(a: Seq<u8>, b: Seq<u8>) -> nat
    decreases a.len(),
{
    if a.len() == 0 || b.len() == 0 {
        0
    } else {
        popcount(a[0] ^ b[0]) as nat + hamming(a.drop_first(), b.drop_first())
    }
}

proof fn lemma_popcount_le_8(b: u8)
    ensures
        popcount(b) <= 8,
{
    assert(popcount(b) <= 8) by (bit_vector);
}

/// The distance metric is symmetric.
pub proof fn lemma_hamming_sym(a: Seq<u8>, b: Seq<u8>)
    ensures
        hamming(a, b) == hamming(b, a),
    decreases a.len(),
{
    if a.len() != 0 && b.len() != 0 {
        let x: u8 = a[0];
        let y: u8 = b[0];
        assert(popcount(x ^ y) == popcount(y ^ x)) by (bit_vector);
        lemma_hamming_sym(a.drop_first(), b.drop_first());
    }
}

/// Every bit vector is at distance zero from itself.
pub proof fn lemma_hamming_self(a: Seq<u8>)
    ensures
        hamming(a, a) == 0,
    decreases a.len(),
{
    if a.len() != 0 {
        let x: u8 = a[0];
        assert(popcount(x ^ x) == 0) by (bit_vector);
        lemma_hamming_self(a.drop_first());
    }
}

proof fn lemma_hamming_skip(a: Seq<u8>, b: Seq<u8>, i: int)
    requires
        0 <= i < a.len(),
        i < b.len(),
    ensures
        hamming(a.skip(i), b.skip(i)) == popcount(a[i] ^ b[i]) + hamming(
            a.skip(i + 1),
            b.skip(i + 1),
        ),
{
    assert(a.skip(i)[0] == a[i]);
    assert(b.skip(i)[0] == b[i]);
    assert(a.skip(i).drop_first() =~= a.skip(i + 1));
    assert(b.skip(i).drop_first() =~= b.skip(i + 1));
}

/// A perceptual hash: a fixed-size bit vector produced from image content,
/// stored as its raw bytes.
pub struct HashVal {
    bits: Vec<u8>,
}

impl View for HashVal {
    type V = Seq<u8>;

    closed spec fn view(&self) -> Seq<u8> {
        self.bits@
    }
}

impl HashVal {
    pub fn from_bytes(bits: Vec<u8>) -> (h: HashVal)
        ensures
            h@ == bits@,
    {
        HashVal { bits }
    }

    pub fn bytes(&self) -> (b: &Vec<u8>)
        ensures
            b@ == self@,
    {
        &self.bits
    }

    pub fn len(&self) -> (n: usize)
        ensures
            n == self@.len(),
    {
        self.bits.len()
    }

    pub fn duplicate(&self) -> (h: HashVal)
        ensures
            h@ == self@,
    {
        let mut bits: Vec<u8> = Vec::new();
        let mut i: usize = 0;
        while i < self.bits.len()
            invariant
                0 <= i <= self.bits.len(),
                bits@ =~= self.bits@.take(i as int),
            decreases self.bits.len() - i,
        {
            bits.push(self.bits[i]);
            i = i + 1;
        }
        proof {
            assert(bits@ =~= self.bits@);
        }
        HashVal { bits }
    }
}

fn byte_popcount(b: u8) -> (n: u8)
    ensures
        n == popcount(b),
{
    proof {
        assert((b & 1) <= 1 && ((b >> 1u8) & 1) <= 1 && ((b >> 2u8) & 1) <= 1 && ((b >> 3u8) & 1)
            <= 1 && ((b >> 4u8) & 1) <= 1 && ((b >> 5u8) & 1) <= 1 && ((b >> 6u8) & 1) <= 1 && ((b
            >> 7u8) & 1) <= 1) by (bit_vector);
    }
    (b & 1) + ((b >> 1u8) & 1) + ((b >> 2u8) & 1) + ((b >> 3u8) & 1) + ((b >> 4u8) & 1) + ((b
        >> 5u8) & 1) + ((b >> 6u8) & 1) + ((b >> 7u8) & 1)
}

/// Exact Hamming distance between two hashes.
pub fn distance(a: &HashVal, b: &HashVal) -> (d: u64)
    requires
        a@.len() <= 0x0100_0000_0000_0000,
    ensures
        d == hamming(a@, b@),
{
    let n: usize = if a.bits.len() < b.bits.len() {
        a.bits.len()
    } else {
        b.bits.len()
    };
    let mut i: usize = 0;
    let mut acc: u64 = 0;
    proof {
        assert(a@.skip(0) =~= a@);
        assert(b@.skip(0) =~= b@);
    }
    while i < n
        invariant
            0 <= i <= n,
            n <= a@.len(),
            n <= b@.len(),
            a@.len() <= 0x0100_0000_0000_0000,
            acc <= 8 * i,
            acc + hamming(a@.skip(i as int), b@.skip(i as int)) == hamming(a@, b@),
        decreases n - i,
    {
        proof {
            lemma_hamming_skip(a@, b@, i as int);
            lemma_popcount_le_8(a@[i as int] ^ b@[i as int]);
        }
        let p: u8 = byte_popcount(a.bits[i] ^ b.bits[i]);
        acc = acc + (p as u64);
        i = i + 1;
    }
    proof {
        assert(a@.skip(n as int).len() == 0 || b@.skip(n as int).len() == 0);
    }
    acc
}

/// Whether two hashes are near-duplicates: their Hamming distance is below
/// the threshold `t`.
pub fn within_distance(a: &HashVal, b: &HashVal, t: u32) -> (r: bool)
    ensures
        r == (hamming(a@, b@) < t),
{
    if t == 0 {
        return false;
    }
    let n: usize = if a.bits.len() < b.bits.len() {
        a.bits.len()
    } else {
        b.bits.len()
    };
    let mut i: usize = 0;
    let mut acc: u64 = 0;
    proof {
        assert(a@.skip(0) =~= a@);
        assert(b@.skip(0) =~= b@);
    }
    while i < n
        invariant
            0 <= i <= n,
            n <= a@.len(),
            n <= b@.len(),
            acc < t,
            acc + hamming(a@.skip(i as int), b@.skip(i as int)) == hamming(a@, b@),
        decreases n - i,
    {
        proof {
            lemma_hamming_skip(a@, b@, i as int);
            lemma_popcount_le_8(a@[i as int] ^ b@[i as int]);
        }
        let p: u8 = byte_popcount(a.bits[i] ^ b.bits[i]);
        acc = acc + (p as u64);
        if acc >= t as u64 {
            return false;
        }
        i = i + 1;
    }
    proof {
        assert(a@.skip(n as int).len() == 0 || b@.skip(n as int).len() == 0);
    }
    true
}

} // verus!
