//! A trivial hasher that XORs the data, eight bytes at a time, into the
//! final hash.

use vstd::prelude::*;

verus! {

/// The number that `data[start..end]` spells in little-endian order, cut to
/// 64 bits.
pub open spec fn le_value(data: Seq<u8>, start: int, end: int) -> u64
    decreases end - start,
{
    if start < end {
        (le_value(data, start + 1, end) << 8u64) | (data[start] as u64)
    } else {
        0
    }
}

/// The first `n` full groups of eight bytes of `data`, each read
/// little-endian.
pub open spec fn full_words(data: Seq<u8>, n: int) -> Seq<u64> {
    Seq::new(n as nat, |c: int| le_value(data, 8 * c, 8 * c + 8))
}

/// The words that `data` is read as: every full group of eight bytes, then
/// the bytes left over (none at all reads as zero).
pub open spec fn chunk_words(data: Seq<u8>) -> Seq<u64> {
    let full = data.len() as int / 8;
    full_words(data, full).push(le_value(data, 8 * full, data.len() as int))
}

/// The words of `ws` that are not zero, in order.
pub open spec fn nonzero_words(ws: Seq<u64>) -> Seq<u64>
    decreases ws.len(),
{
    if ws.len() == 0 {
        ws
    } else if ws.last() != 0 {
        nonzero_words(ws.drop_last()).push(ws.last())
    } else {
        nonzero_words(ws.drop_last())
    }
}

/// The words that `XorHasher` takes in for `data`: those of `chunk_words`
/// that are not zero.
pub open spec fn data_words(data: Seq<u8>) -> Seq<u64> {
    nonzero_words(chunk_words(data))
}

/// All of `ws` combined by XOR.
pub open spec fn xor_fold(ws: Seq<u64>) -> u64
    decreases ws.len(),
{
    if ws.len() == 0 {
        0
    } else {
        xor_fold(ws.drop_last()) ^ ws.last()
    }
}

pub(crate) proof fn lemma_xor_assoc(a: u64, b: u64, c: u64)
    by (bit_vector)
    ensures
        (a ^ b) ^ c == a ^ (b ^ c),
        a ^ 0 == a,
        0 ^ a == a,
{
}

/// Reads `data[start..end]` as a little-endian number.
fn read_le(data: &[u8], start: usize, end: usize) -> (w: u64)
    requires
        start <= end <= data@.len(),
    ensures
        w == le_value(data@, start as int, end as int),
{
    let mut w: u64 = 0;
    let mut i: usize = end;
    while i > start
        invariant
            start <= i <= end <= data@.len(),
            w == le_value(data@, i as int, end as int),
        decreases i - start,
    {
        i -= 1;
        w = (w << 8u64) | (data[i] as u64);
    }
    w
}

/// Splits `data` into words of eight little-endian bytes, the last one
/// possibly shorter, and keeps those that are not zero.
pub fn bytes_to_u64s(data: &[u8]) -> (r: Vec<u64>)
    ensures
        r@ == data_words(data@),
{
    let n = data.len();
    let full = n / 8;
    let mut r: Vec<u64> = Vec::new();
    let mut c: usize = 0;
    while c < full
        invariant
            c <= full,
            n == data@.len(),
            full == n / 8,
            r@ == nonzero_words(full_words(data@, c as int)),
        decreases full - c,
    {
        assert(8 * c + 8 <= data@.len()) by (nonlinear_arith)
            requires
                c < full,
                full == n / 8,
                n == data@.len(),
        ;
        let w = read_le(data, 8 * c, 8 * c + 8);
        proof {
            assert(full_words(data@, c + 1).drop_last() =~= full_words(data@, c as int));
        }
        if w != 0 {
            r.push(w);
        }
        c += 1;
    }
    let w = read_le(data, 8 * full, data.len());
    proof {
        assert(chunk_words(data@).drop_last() =~= full_words(data@, full as int));
    }
    if w != 0 {
        r.push(w);
    }
    r
}

/// A trivial (hopefully fast) hasher that just XORs the data into the final
/// hash.
#[derive(Clone, Copy)]
pub struct XorHasher {
    hash: u64,
}

impl View for XorHasher {
    type V = u64;

    closed spec fn view(&self) -> u64 {
        self.hash
    }
}

impl Default for XorHasher {
    fn default() -> (r: XorHasher)
        ensures
            r@ == 0,
    {
        XorHasher { hash: 0 }
    }
}

impl std::hash::Hasher for XorHasher {
    fn finish(&self) -> u64 {
        self.hash
    }

    fn write(&mut self, bytes: &[u8]) {
        XorHasher::write(self, bytes)
    }
}

impl XorHasher {
    /// The hash of everything written so far.
    pub fn finish(&self) -> (r: u64)
        ensures
            r == self@,
    {
        self.hash
    }

    /// XORs the words of `bytes` into the hash.
    pub fn write(&mut self, bytes: &[u8])
        ensures
            final(self)@ == old(self)@ ^ xor_fold(data_words(bytes@)),
    {
        let words = bytes_to_u64s(bytes);
        proof {
            lemma_xor_assoc(old(self)@, 0, 0);
        }
        let mut i: usize = 0;
        while i < words.len()
            invariant
                i <= words@.len(),
                words@ == data_words(bytes@),
                self@ == old(self)@ ^ xor_fold(words@.take(i as int)),
            decreases words@.len() - i,
        {
            proof {
                assert(words@.take(i + 1).drop_last() =~= words@.take(i as int));
                lemma_xor_assoc(old(self)@, xor_fold(words@.take(i as int)), words@[i as int]);
            }
            self.hash = self.hash ^ words[i];
            i += 1;
        }
        proof {
            assert(words@.take(i as int) =~= words@);
        }
    }
}

} // verus!
