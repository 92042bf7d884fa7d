//! Little-endian conversions between bytes and 64-bit words.
use vstd::prelude::*;

use crate::limbs::{lemma_limbs_nat_4, limbs_nat, word};

verus! {

/// The natural number denoted by a little-endian byte sequence.
pub open spec fn bytes_nat(s: Seq<u8>) -> nat
    decreases s.len(),
{
    if s.len() == 0 {
        0
    } else {
        (s[0] as nat) + 256 * bytes_nat(s.skip(1))
    }
}

/// The eight bytes at `s[k..k + 8]` read as one little-endian word.
pub open spec fn word_at(s: Seq<u8>, k: int) -> nat {
    (s[k] as nat) + 0x100 * (s[k + 1] as nat) + 0x1_0000 * (s[k + 2] as nat) + 0x100_0000 * (s[k
        + 3] as nat) + 0x1_0000_0000 * (s[k + 4] as nat) + 0x100_0000_0000 * (s[k + 5] as nat)
        + 0x1_0000_0000_0000 * (s[k + 6] as nat) + 0x100_0000_0000_0000 * (s[k + 7] as nat)
}

/// The lowest eight bytes form one word, the rest is weighted by `2^64`.
pub proof fn lemma_bytes_nat_word(s: Seq<u8>)
    requires
        s.len() >= 8,
    ensures
        bytes_nat(s) == word_at(s, 0) + word() * bytes_nat(s.skip(8)),
{
    let t1 = s.skip(1);
    let t2 = s.skip(2);
    let t3 = s.skip(3);
    let t4 = s.skip(4);
    let t5 = s.skip(5);
    let t6 = s.skip(6);
    let t7 = s.skip(7);
    let t8 = s.skip(8);
    assert(t1.skip(1) =~= t2);
    assert(t2.skip(1) =~= t3);
    assert(t3.skip(1) =~= t4);
    assert(t4.skip(1) =~= t5);
    assert(t5.skip(1) =~= t6);
    assert(t6.skip(1) =~= t7);
    assert(t7.skip(1) =~= t8);
    assert(bytes_nat(s) == (s[0] as nat) + 256 * bytes_nat(t1));
    assert(bytes_nat(t1) == (s[1] as nat) + 256 * bytes_nat(t2));
    assert(bytes_nat(t2) == (s[2] as nat) + 256 * bytes_nat(t3));
    assert(bytes_nat(t3) == (s[3] as nat) + 256 * bytes_nat(t4));
    assert(bytes_nat(t4) == (s[4] as nat) + 256 * bytes_nat(t5));
    assert(bytes_nat(t5) == (s[5] as nat) + 256 * bytes_nat(t6));
    assert(bytes_nat(t6) == (s[6] as nat) + 256 * bytes_nat(t7));
    assert(bytes_nat(t7) == (s[7] as nat) + 256 * bytes_nat(t8));
}

/// Thirty-two bytes as four words.
pub proof fn lemma_bytes_nat_32(s: Seq<u8>)
    requires
        s.len() == 32,
    ensures
        bytes_nat(s) == word_at(s, 0) + word() * word_at(s, 8) + (word() * word()) * word_at(s, 16)
            + (word() * word() * word()) * word_at(s, 24),
{
    lemma_bytes_nat_word(s);
    lemma_bytes_nat_word(s.skip(8));
    lemma_bytes_nat_word(s.skip(16));
    lemma_bytes_nat_word(s.skip(24));
    assert(s.skip(8).skip(8) =~= s.skip(16));
    assert(s.skip(16).skip(8) =~= s.skip(24));
    assert(s.skip(24).skip(8).len() == 0);
    assert(bytes_nat(s.skip(24).skip(8)) == 0);
    assert(word_at(s.skip(8), 0) == word_at(s, 8));
    assert(word_at(s.skip(16), 0) == word_at(s, 16));
    assert(word_at(s.skip(24), 0) == word_at(s, 24));
    let w = word();
    let a = word_at(s, 0);
    let b = word_at(s, 8);
    let c = word_at(s, 16);
    let d = word_at(s, 24);
    assert(a + w * (b + w * (c + w * (d + w * 0))) == a + w * b + (w * w) * c + (w * w * w) * d)
        by (nonlinear_arith);
}

/// The word whose little-endian bytes are `b[k..k + 8]`.
pub fn u64_from_le_bytes(b: &[u8; 32], k: usize) -> (r: u64)
    requires
        k + 8 <= 32,
    ensures
        r == word_at(b@, k as int),
{
    let b0 = b[k];
    let b1 = b[k + 1];
    let b2 = b[k + 2];
    let b3 = b[k + 3];
    let b4 = b[k + 4];
    let b5 = b[k + 5];
    let b6 = b[k + 6];
    let b7 = b[k + 7];
    let r = (b0 as u64) | ((b1 as u64) << 8) | ((b2 as u64) << 16) | ((b3 as u64) << 24) | ((
    b4 as u64) << 32) | ((b5 as u64) << 40) | ((b6 as u64) << 48) | ((b7 as u64) << 56);
    assert(r == (b0 as u64) + 0x100 * (b1 as u64) + 0x1_0000 * (b2 as u64) + 0x100_0000 * (
    b3 as u64) + 0x1_0000_0000 * (b4 as u64) + 0x100_0000_0000 * (b5 as u64) + 0x1_0000_0000_0000
        * (b6 as u64) + 0x100_0000_0000_0000 * (b7 as u64)) by (bit_vector)
        requires
            r == (b0 as u64) | ((b1 as u64) << 8) | ((b2 as u64) << 16) | ((b3 as u64) << 24) | ((
            b4 as u64) << 32) | ((b5 as u64) << 40) | ((b6 as u64) << 48) | ((b7 as u64) << 56),
    ;
    r
}

/// Writes the little-endian bytes of `x` into `b[k..k + 8]`.
pub fn u64_to_le_bytes(b: &mut [u8; 32], k: usize, x: u64)
    requires
        k + 8 <= 32,
    ensures
        word_at(final(b)@, k as int) == x,
        forall|j: int| 0 <= j < 32 && !(k <= j < k + 8) ==> final(b)@[j] == old(b)@[j],
{
    b[k] = x as u8;
    b[k + 1] = (x >> 8) as u8;
    b[k + 2] = (x >> 16) as u8;
    b[k + 3] = (x >> 24) as u8;
    b[k + 4] = (x >> 32) as u8;
    b[k + 5] = (x >> 40) as u8;
    b[k + 6] = (x >> 48) as u8;
    b[k + 7] = (x >> 56) as u8;
    assert(x == (x as u8) as u64 + 0x100 * ((x >> 8) as u8) as u64 + 0x1_0000 * ((x >> 16) as u8) as u64
        + 0x100_0000 * ((x >> 24) as u8) as u64 + 0x1_0000_0000 * ((x >> 32) as u8) as u64
        + 0x100_0000_0000 * ((x >> 40) as u8) as u64 + 0x1_0000_0000_0000 * ((x >> 48) as u8) as u64
        + 0x100_0000_0000_0000 * ((x >> 56) as u8) as u64) by (bit_vector);
}

/// Four words read from thirty-two bytes denote the number the bytes denote.
pub proof fn lemma_words_of_bytes(s: Seq<u8>, w: Seq<u64>)
    requires
        s.len() == 32,
        w.len() == 4,
        forall|i: int| 0 <= i < 4 ==> w[i] == word_at(s, 8 * i),
    ensures
        limbs_nat(w) == bytes_nat(s),
{
    assert(w =~= seq![w[0], w[1], w[2], w[3]]);
    lemma_limbs_nat_4(w[0], w[1], w[2], w[3]);
    lemma_bytes_nat_32(s);
    assert(w[1] == word_at(s, 8));
    assert(w[2] == word_at(s, 16));
    assert(w[3] == word_at(s, 24));
    let x = word();
    assert(w[1] * x == x * w[1] && w[2] * (x * x) == (x * x) * w[2] && w[3] * (x * x * x) == (x
        * x * x) * w[3]) by (nonlinear_arith);
}

} // verus!
