//! Exact re-scoring of candidate seeds by Hamming comparison.
use vstd::prelude::*;

verus! {

/// The number of positions below `n` at which `a` and `b` hold the same byte.
pub open spec fn equal_below(a: Seq<u8>, b: Seq<u8>, n: nat) -> nat
    decreases n,
{
    if n == 0 {
        0
    } else {
        equal_below(a, b, (n - 1) as nat) + if a[n - 1] == b[n - 1] {
            1nat
        } else {
            0nat
        }
    }
}

/// The number of positions at which `a` and `b` hold the same byte.
pub open spec fn equal_positions(a: Seq<u8>, b: Seq<u8>) -> nat {
    equal_below(a, b, a.len())
}

/// Byte lane `i` of a word, lane 0 being the least significant.
pub open spec fn lane(x: u64, i: u64) -> u64 {
    (x >> (8 * i)) & 0xff
}

/// The indicator word of `x`: bit `8 * i` is set when byte lane `i` of `x`
/// is not zero, and every other bit is clear.
pub open spec fn nonzero_lanes(x: u64) -> u64 {
    let y = x | (x >> 4u64);
    let y = y | (y >> 2u64);
    let y = y | (y >> 1u64);
    y & 0x0101_0101_0101_0101u64
}

proof fn lemma_equal_below_bound(a: Seq<u8>, b: Seq<u8>, n: nat)
    ensures
        equal_below(a, b, n) <= n,
    decreases n,
{
    if n > 0 {
        lemma_equal_below_bound(a, b, (n - 1) as nat);
    }
}

/// Placing a byte into an empty lane sets that lane and keeps the others.
proof fn lemma_place_lane(w: u64, v: u64, i: u64, k: u64)
    requires
        i < 8,
        k < 8,
        v < 256,
        lane(w, i) == 0,
    ensures
        lane(w | (v << (8 * i)), k) == if k == i { v } else { lane(w, k) },
{
    assert(((w | (v << (8 * i))) >> (8 * k)) & 0xff == if k == i { v } else { (w >> (8 * k)) & 0xff })
        by (bit_vector)
        requires
            i < 8,
            k < 8,
            v < 256,
            (w >> (8 * i)) & 0xff == 0,
    ;
}

/// The lanes of an exclusive or are the exclusive or of the lanes, and the
/// indicator bit of a lane tells whether the lane is zero.
proof fn lemma_xor_lane(x: u64, y: u64, i: u64)
    requires
        i < 8,
    ensures
        lane(x ^ y, i) == 0 <==> lane(x, i) == lane(y, i),
        (nonzero_lanes(x ^ y) >> (8 * i)) & 1 == 1 <==> lane(x ^ y, i) != 0,
        (nonzero_lanes(x ^ y) >> (8 * i)) & 1 <= 1,
{
    assert(((x ^ y) >> (8 * i)) & 0xff == 0 <==> (x >> (8 * i)) & 0xff == (y >> (8 * i)) & 0xff)
        by (bit_vector)
        requires
            i < 8,
    ;
    let z = x ^ y;
    assert((((((z | (z >> 4u64)) | ((z | (z >> 4u64)) >> 2u64)) | (((z | (z >> 4u64)) | ((z
        | (z >> 4u64)) >> 2u64)) >> 1u64)) & 0x0101_0101_0101_0101u64) >> (8 * i)) & 1 == 1
        <==> (z >> (8 * i)) & 0xff != 0) by (bit_vector)
        requires
            i < 8,
    ;
    assert((nonzero_lanes(z) >> (8 * i)) & 1 <= 1) by (bit_vector);
}

/// The word whose byte lanes are `s[base]` to `s[base + 7]`.
fn load_word(s: &[u8], base: usize) -> (w: u64)
    requires
        base + 8 <= s@.len(),
    ensures
        forall|k: u64| k < 8 ==> #[trigger] lane(w, k) == s@[base + k] as u64,
{
    let len = s.len();
    let mut w: u64 = 0;
    let mut i: u64 = 0;
    assert forall|k: u64| k < 8 implies #[trigger] lane(0u64, k) == 0 by {
        assert((0u64 >> (8 * k)) & 0xff == 0) by (bit_vector);
    }
    while i < 8
        invariant
            i <= 8,
            len == s@.len(),
            base + 8 <= s@.len(),
            forall|k: u64| k < 8 ==> #[trigger] lane(w, k) == if k < i {
                s@[base + k] as u64
            } else {
                0
            },
        decreases 8 - i,
    {
        let v = s[base + i as usize] as u64;
        let old_w = w;
        w = w | (v << (8 * i));
        assert forall|k: u64| k < 8 implies #[trigger] lane(w, k) == if k < i + 1 {
            s@[base + k] as u64
        } else {
            0
        } by {
            lemma_place_lane(old_w, v, i, k);
        }
        i = i + 1;
    }
    w
}

/// Compares two equal-length byte strings: `Some(c)` where `c`, the number
/// of positions at which they agree, reaches `threshold`; `None` where it
/// does not, or where the lengths differ.
pub fn hamming(a: &[u8], b: &[u8], threshold: usize) -> (r: Option<usize>)
    ensures
        a@.len() != b@.len() ==> r is None,
        a@.len() == b@.len() ==> r == if equal_positions(a@, b@) >= threshold {
            Some(equal_positions(a@, b@) as usize)
        } else {
            None::<usize>
        },
{
    let n = a.len();
    if n != b.len() {
        return None;
    }
    let mut matches: usize = 0;
    let mut base: usize = 0;
    while n - base >= 8
        invariant
            n == a@.len(),
            n == b@.len(),
            base <= n,
            matches == equal_below(a@, b@, base as nat),
        decreases n - base,
    {
        let wa = load_word(a, base);
        let wb = load_word(b, base);
        let x = wa ^ wb;
        let y = x | (x >> 4u64);
        let y = y | (y >> 2u64);
        let y = y | (y >> 1u64);
        let y = y & 0x0101_0101_0101_0101u64;
        assert(y == nonzero_lanes(x));
        assert forall|k: u64| k < 8 implies ((#[trigger] (y >> (8 * k)) & 1 == 1) <==> a@[base + k]
            != b@[base + k]) && (y >> (8 * k)) & 1 <= 1 by {
            lemma_xor_lane(wa, wb, k);
            assert(lane(wa, k) == a@[base + k] as u64);
            assert(lane(wb, k) == b@[base + k] as u64);
        }
        let mut differing: usize = 0;
        let mut i: u64 = 0;
        while i < 8
            invariant
                i <= 8,
                base + 8 <= n,
                n == a@.len(),
                n == b@.len(),
                forall|k: u64|
                    k < 8 ==> ((#[trigger] (y >> (8 * k)) & 1 == 1) <==> a@[base + k] != b@[base
                        + k]) && (y >> (8 * k)) & 1 <= 1,
                differing <= i,
                differing + (equal_below(a@, b@, (base + i) as nat) - equal_below(a@, b@, base as nat)) == i,
                equal_below(a@, b@, (base + i) as nat) >= equal_below(a@, b@, base as nat),
            decreases 8 - i,
        {
            let indicator = (y >> (8 * i)) & 1;
            assert(equal_below(a@, b@, (base + i + 1) as nat) == equal_below(a@, b@, (base + i) as nat)
                + if a@[base + i] == b@[base + i] { 1nat } else { 0nat });
            differing = differing + indicator as usize;
            i = i + 1;
        }
        proof {
            lemma_equal_below_bound(a@, b@, base as nat);
        }
        matches = matches + (8 - differing);
        base = base + 8;
    }
    while base < n
        invariant
            n == a@.len(),
            n == b@.len(),
            base <= n,
            matches == equal_below(a@, b@, base as nat),
        decreases n - base,
    {
        proof {
            lemma_equal_below_bound(a@, b@, base as nat);
        }
        if a[base] == b[base] {
            matches = matches + 1;
        }
        base = base + 1;
    }
    if matches >= threshold {
        Some(matches)
    } else {
        None
    }
}

} // verus!
