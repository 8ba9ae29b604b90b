//! Integer helpers shared by the economy and the automaton.

use vstd::prelude::*;
use vstd::arithmetic::power2::pow2;
use vstd::arithmetic::power2::lemma2_to64;
use vstd::arithmetic::power2::lemma2_to64_rest;
use vstd::arithmetic::power2::lemma_pow2_unfold;

verus! {

/// Floor of the base-2 logarithm; `0` for `0` and `1`.
pub open spec fn log2(x: nat) -> nat
    decreases x,
{
    if x <= 1 {
        0
    } else {
        1 + log2(x / 2)
    }
}

/// `log2(x)` is the exponent of the largest power of two that is at most `x`.
pub proof fn lemma_log2_bounds(x: nat)
    requires
        x > 0,
    ensures
        pow2(log2(x)) <= x < 2 * pow2(log2(x)),
    decreases x,
{
    if x <= 1 {
        lemma2_to64();
    } else {
        lemma_log2_bounds(x / 2);
        lemma_pow2_unfold(log2(x));
    }
}

/// A value below `2^e` has a logarithm below `e`.
pub proof fn lemma_log2_below(x: nat, e: nat)
    requires
        e > 0,
        x < pow2(e),
    ensures
        log2(x) < e,
    decreases e,
{
    if x > 1 {
        lemma_pow2_unfold(e);
        if e == 1 {
            lemma2_to64();
        } else {
            lemma_log2_below(x / 2, (e - 1) as nat);
        }
    }
}

/// The logarithm is monotone.
pub proof fn lemma_log2_monotone(x: nat, y: nat)
    requires
        x <= y,
    ensures
        log2(x) <= log2(y),
    decreases y,
{
    if x > 1 {
        lemma_log2_monotone(x / 2, y / 2);
    }
}

/// Computes `log2(x)` for a positive `x`.
pub fn floor_log2(x: u64) -> (r: u32)
    requires
        x > 0,
    ensures
        r == log2(x as nat),
        r <= 63,
{
    proof {
        lemma2_to64_rest();
        lemma_log2_below(x as nat, 64);
    }
    let mut v: u64 = x;
    let mut r: u32 = 0;
    while v > 1
        invariant
            v >= 1,
            r + log2(v as nat) == log2(x as nat),
            log2(x as nat) <= 63,
        decreases v,
    {
        v = v / 2;
        r = r + 1;
    }
    r
}

/// Byte `i` of `x`, counted from the least significant one.
pub open spec fn byte_at(x: u64, i: int) -> u8 {
    if i <= 0 {
        (x & 0xff) as u8
    } else if i == 1 {
        ((x >> 8) & 0xff) as u8
    } else if i == 2 {
        ((x >> 16) & 0xff) as u8
    } else if i == 3 {
        ((x >> 24) & 0xff) as u8
    } else if i == 4 {
        ((x >> 32) & 0xff) as u8
    } else if i == 5 {
        ((x >> 40) & 0xff) as u8
    } else if i == 6 {
        ((x >> 48) & 0xff) as u8
    } else {
        ((x >> 56) & 0xff) as u8
    }
}

/// The word whose little-endian bytes are `b[0..8]`.
pub open spec fn word_of(b: Seq<u8>) -> u64 {
    join8(b[0], b[1], b[2], b[3], b[4], b[5], b[6], b[7])
}

/// The word made of eight bytes, least significant first.
pub open spec fn join8(b0: u8, b1: u8, b2: u8, b3: u8, b4: u8, b5: u8, b6: u8, b7: u8) -> u64 {
    (b0 as u64) | ((b1 as u64) << 8) | ((b2 as u64) << 16) | ((b3 as u64) << 24) | ((b4 as u64)
        << 32) | ((b5 as u64) << 40) | ((b6 as u64) << 48) | ((b7 as u64) << 56)
}

/// Extracts byte `i` of `x`.
pub fn get_byte(x: u64, i: usize) -> (b: u8)
    requires
        i < 8,
    ensures
        b == byte_at(x, i as int),
{
    let s: u64 = 8 * (i as u64);
    let r: u64 = (x >> s) & 0xff;
    assert(r <= 0xff) by (bit_vector)
        requires
            r == (x >> s) & 0xff,
    ;
    assert(s == 0 ==> (x >> s) == x) by (bit_vector);
    r as u8
}

/// A word is rebuilt from its eight bytes.
pub proof fn lemma_bytes_of_word(x: u64)
    ensures
        join8(
            byte_at(x, 0),
            byte_at(x, 1),
            byte_at(x, 2),
            byte_at(x, 3),
            byte_at(x, 4),
            byte_at(x, 5),
            byte_at(x, 6),
            byte_at(x, 7),
        ) == x,
{
    assert(join8(
        (x & 0xff) as u8,
        ((x >> 8) & 0xff) as u8,
        ((x >> 16) & 0xff) as u8,
        ((x >> 24) & 0xff) as u8,
        ((x >> 32) & 0xff) as u8,
        ((x >> 40) & 0xff) as u8,
        ((x >> 48) & 0xff) as u8,
        ((x >> 56) & 0xff) as u8,
    ) == x) by (bit_vector);
}

/// Each byte of a word built from eight bytes is the byte it was built from.
pub proof fn lemma_word_of_bytes(
    b0: u8,
    b1: u8,
    b2: u8,
    b3: u8,
    b4: u8,
    b5: u8,
    b6: u8,
    b7: u8,
)
    ensures
        byte_at(join8(b0, b1, b2, b3, b4, b5, b6, b7), 0) == b0,
        byte_at(join8(b0, b1, b2, b3, b4, b5, b6, b7), 1) == b1,
        byte_at(join8(b0, b1, b2, b3, b4, b5, b6, b7), 2) == b2,
        byte_at(join8(b0, b1, b2, b3, b4, b5, b6, b7), 3) == b3,
        byte_at(join8(b0, b1, b2, b3, b4, b5, b6, b7), 4) == b4,
        byte_at(join8(b0, b1, b2, b3, b4, b5, b6, b7), 5) == b5,
        byte_at(join8(b0, b1, b2, b3, b4, b5, b6, b7), 6) == b6,
        byte_at(join8(b0, b1, b2, b3, b4, b5, b6, b7), 7) == b7,
{
    let x = join8(b0, b1, b2, b3, b4, b5, b6, b7);
    assert((x & 0xff) as u8 == b0) by (bit_vector)
        requires
            x == join8(b0, b1, b2, b3, b4, b5, b6, b7),
    ;
    assert(((x >> 8) & 0xff) as u8 == b1) by (bit_vector)
        requires
            x == join8(b0, b1, b2, b3, b4, b5, b6, b7),
    ;
    assert(((x >> 16) & 0xff) as u8 == b2) by (bit_vector)
        requires
            x == join8(b0, b1, b2, b3, b4, b5, b6, b7),
    ;
    assert(((x >> 24) & 0xff) as u8 == b3) by (bit_vector)
        requires
            x == join8(b0, b1, b2, b3, b4, b5, b6, b7),
    ;
    assert(((x >> 32) & 0xff) as u8 == b4) by (bit_vector)
        requires
            x == join8(b0, b1, b2, b3, b4, b5, b6, b7),
    ;
    assert(((x >> 40) & 0xff) as u8 == b5) by (bit_vector)
        requires
            x == join8(b0, b1, b2, b3, b4, b5, b6, b7),
    ;
    assert(((x >> 48) & 0xff) as u8 == b6) by (bit_vector)
        requires
            x == join8(b0, b1, b2, b3, b4, b5, b6, b7),
    ;
    assert(((x >> 56) & 0xff) as u8 == b7) by (bit_vector)
        requires
            x == join8(b0, b1, b2, b3, b4, b5, b6, b7),
    ;
}

/// The eight little-endian bytes of `x`.
pub fn le_bytes(x: u64) -> (b: [u8; 8])
    ensures
        forall|i: int| 0 <= i < 8 ==> b[i] == byte_at(x, i),
        word_of(b@) == x,
{
    let b: [u8; 8] = [
        get_byte(x, 0),
        get_byte(x, 1),
        get_byte(x, 2),
        get_byte(x, 3),
        get_byte(x, 4),
        get_byte(x, 5),
        get_byte(x, 6),
        get_byte(x, 7),
    ];
    proof {
        lemma_bytes_of_word(x);
    }
    b
}

/// Assembles a word from eight little-endian bytes.
pub fn from_le_bytes(b: &[u8; 8]) -> (x: u64)
    ensures
        x == word_of(b@),
        forall|i: int| 0 <= i < 8 ==> byte_at(x, i) == b[i],
{
    let x: u64 = (b[0] as u64) | ((b[1] as u64) << 8) | ((b[2] as u64) << 16) | ((b[3] as u64)
        << 24) | ((b[4] as u64) << 32) | ((b[5] as u64) << 40) | ((b[6] as u64) << 48) | ((
    b[7] as u64) << 56);
    proof {
        lemma_word_of_bytes(b[0], b[1], b[2], b[3], b[4], b[5], b[6], b[7]);
    }
    x
}

/// Splits a word into its high and low 32-bit halves and back.
pub open spec fn pack32(hi: int, lo: int) -> int {
    (hi % 0x1_0000_0000) * 0x1_0000_0000 + lo
}

/// Packs the low 32 bits of `hi` above a 32-bit `lo`.
pub fn pack_hi_lo(hi: u64, lo: u64) -> (x: u64)
    requires
        lo <= 0xffff_ffff,
    ensures
        x == pack32(hi as int, lo as int),
        x / 0x1_0000_0000 == hi % 0x1_0000_0000,
        x % 0x1_0000_0000 == lo,
{
    (hi % 0x1_0000_0000) * 0x1_0000_0000 + lo
}

/// A vector with the same elements.
pub fn copy_of<T: Copy>(v: &Vec<T>) -> (r: Vec<T>)
    ensures
        r@ == v@,
{
    let mut r: Vec<T> = Vec::new();
    let mut i: usize = 0;
    while i < v.len()
        invariant
            i <= v.len(),
            r@ == v@.take(i as int),
        decreases v.len() - i,
    {
        r.push(v[i]);
        assert(r@ =~= v@.take(i + 1));
        i = i + 1;
    }
    assert(v@.take(v@.len() as int) =~= v@);
    r
}

} // verus!
