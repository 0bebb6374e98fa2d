//! Dinucleotide codes and the bit helpers shared by the scanners.
use vstd::prelude::*;

verus! {

/// The dinucleotide code of two consecutive bases: bits 1 and 2 of each base,
/// the first pair in bits 2..4 of the code and the second in bits 0..2.
pub open spec fn code(b0: u8, b1: u8) -> u8 {
    ((b0 & 6u8) << 1u8) | ((b1 & 6u8) >> 1u8)
}

/// The code of the base pair that starts at position `i` of `s`.
pub open spec fn code_at(s: Seq<u8>, i: int) -> u8 {
    code(s[i], s[i + 1])
}

/// Bit `j` of `x` is set.
pub open spec fn bit(x: u8, j: int) -> bool {
    (x >> (j as u8)) & 1u8 == 1u8
}

/// The number of set bits of `x` among its lowest `n` bits.
pub open spec fn ones_below(x: u8, n: nat) -> nat
    decreases n,
{
    if n == 0 {
        0
    } else {
        ones_below(x, (n - 1) as nat) + if bit(x, n - 1) { 1nat } else { 0nat }
    }
}

/// The population count of a byte.
pub open spec fn popcount(x: u8) -> nat {
    ones_below(x, 8)
}

/// Every code is one of the sixteen table indices.
pub proof fn lemma_code_bound(b0: u8, b1: u8)
    ensures
        code(b0, b1) < 16,
{
    assert(((b0 & 6u8) << 1u8) | ((b1 & 6u8) >> 1u8) < 16u8) by (bit_vector);
}

/// Two bytes that agree on each of their eight bits are equal.
pub proof fn lemma_bits_determine_byte(x: u8, y: u8)
    requires
        forall|j: int| 0 <= j < 8 ==> (bit(x, j) <==> bit(y, j)),
    ensures
        x == y,
{
    assert(bit(x, 0) <==> bit(y, 0));
    assert(bit(x, 1) <==> bit(y, 1));
    assert(bit(x, 2) <==> bit(y, 2));
    assert(bit(x, 3) <==> bit(y, 3));
    assert(bit(x, 4) <==> bit(y, 4));
    assert(bit(x, 5) <==> bit(y, 5));
    assert(bit(x, 6) <==> bit(y, 6));
    assert(bit(x, 7) <==> bit(y, 7));
    assert(x == y) by (bit_vector)
        requires
            ((x >> 0u8) & 1u8 == 1u8) == ((y >> 0u8) & 1u8 == 1u8),
            ((x >> 1u8) & 1u8 == 1u8) == ((y >> 1u8) & 1u8 == 1u8),
            ((x >> 2u8) & 1u8 == 1u8) == ((y >> 2u8) & 1u8 == 1u8),
            ((x >> 3u8) & 1u8 == 1u8) == ((y >> 3u8) & 1u8 == 1u8),
            ((x >> 4u8) & 1u8 == 1u8) == ((y >> 4u8) & 1u8 == 1u8),
            ((x >> 5u8) & 1u8 == 1u8) == ((y >> 5u8) & 1u8 == 1u8),
            ((x >> 6u8) & 1u8 == 1u8) == ((y >> 6u8) & 1u8 == 1u8),
            ((x >> 7u8) & 1u8 == 1u8) == ((y >> 7u8) & 1u8 == 1u8),
    ;
}

/// Setting bit `j` of `x` sets that bit and leaves the others as they were.
pub proof fn lemma_set_bit(x: u8, j: u8, k: u8)
    requires
        j < 8,
        k < 8,
    ensures
        bit(x | (1u8 << j), k as int) <==> (bit(x, k as int) || k == j),
{
    assert(((x | (1u8 << j)) >> k) & 1u8 == 1u8 <==> ((x >> k) & 1u8 == 1u8 || k == j))
        by (bit_vector)
        requires
            j < 8u8,
            k < 8u8,
    ;
}

/// Masking `x` with bit `j` keeps exactly that bit.
pub proof fn lemma_mask_bit(x: u8, j: u8)
    requires
        j < 8,
    ensures
        (x & (1u8 << j) == (1u8 << j)) <==> bit(x, j as int),
{
    assert((x & (1u8 << j) == (1u8 << j)) <==> ((x >> j) & 1u8 == 1u8)) by (bit_vector)
        requires
            j < 8u8,
    ;
}

/// Sixteen masks with no bit set.
pub fn empty_masks() -> (r: [u8; 16])
    ensures
        forall|k: int, j: int| 0 <= k < 16 && 0 <= j < 8 ==> !#[trigger] bit(r@[k], j),
{
    let mut r = [0u8; 16];
    let mut i: usize = 0;
    while i < 16
        invariant
            i <= 16,
            forall|k: int| 0 <= k < i ==> r@[k] == 0u8,
        decreases 16 - i,
    {
        r[i] = 0;
        i = i + 1;
    }
    assert forall|k: int, j: int| 0 <= k < 16 && 0 <= j < 8 implies !#[trigger] bit(r@[k], j) by {
        assert(r@[k] == 0u8);
        let s = j as u8;
        assert((0u8 >> s) & 1u8 == 0u8) by (bit_vector);
    }
    r
}

/// The dinucleotide code of two bases.
pub fn encode_pair(b0: u8, b1: u8) -> (r: u8)
    ensures
        r == code(b0, b1),
        r < 16,
{
    proof {
        lemma_code_bound(b0, b1);
    }
    ((b0 & 6) << 1) | ((b1 & 6) >> 1)
}

/// The population count of a byte.
pub fn count_ones(x: u8) -> (r: u32)
    ensures
        r == popcount(x),
{
    let mut r: u32 = 0;
    let mut j: u8 = 0;
    while j < 8
        invariant
            j <= 8,
            r <= j,
            r == ones_below(x, j as nat),
        decreases 8 - j,
    {
        if (x >> j) & 1 == 1 {
            r = r + 1;
        }
        j = j + 1;
    }
    r
}

} // verus!
