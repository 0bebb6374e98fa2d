//! A portable sixteen-lane vector that backs the seed driver where no
//! hardware vector unit is used.
use vstd::prelude::*;

use crate::encode::{bit, count_ones, empty_masks, encode_pair};
use crate::fallback::fingerprint;
use crate::simdna::{
    first_marked_from, is_shifted, ref_codes, scanned, seed_lanes, shuffled, NO_CODE,
};

pub use crate::fallback::Patterns;
pub use crate::simdna::SIMDna;

verus! {

/// Or-ing in bit `j` of `b` sets bit `j` where `b` has it and leaves the
/// other bits.
proof fn lemma_or_masked_bit(a: u8, b: u8, j: u8, k: u8)
    requires
        j < 8,
        k < 8,
    ensures
        bit(a | (b & (1u8 << j)), k as int) <==> (bit(a, k as int) || (k == j && bit(b, j as int))),
{
    assert(((a | (b & (1u8 << j))) >> k) & 1u8 == 1u8 <==> ((a >> k) & 1u8 == 1u8 || (k == j && (b
        >> j) & 1u8 == 1u8))) by (bit_vector)
        requires
            j < 8u8,
            k < 8u8,
    ;
}

/// Sixteen byte lanes held in an array.
#[derive(Clone, Copy, Debug)]
pub struct ByteLanes(pub [u8; 16]);

impl SIMDna for ByteLanes {
    open spec fn lanes(&self) -> Seq<u8> {
        self.0@
    }

    proof fn lemma_sixteen_lanes(v: &Self) {
    }

    fn block_size() -> (r: usize) {
        16
    }

    fn shuffle_bytes(self, indices: Self) -> (r: Self) {
        let mut out = [0u8; 16];
        let mut i: usize = 0;
        while i < 16
            invariant
                i <= 16,
                forall|k: int| 0 <= k < i ==> out@[k] == shuffled(self.0@, indices.0@)[k],
            decreases 16 - i,
        {
            let index = indices.0[i];
            if index < 16 {
                out[i] = self.0[index as usize];
            } else {
                out[i] = 0;
            }
            i = i + 1;
        }
        assert(out@ =~= shuffled(self.0@, indices.0@));
        ByteLanes(out)
    }

    fn fill_seed_lanes(self, threshold: u8) -> (r: Self) {
        let mut out = [0u8; 16];
        let mut i: usize = 0;
        while i < 16
            invariant
                i <= 16,
                forall|k: int| 0 <= k < i ==> out@[k] == seed_lanes(self.0@, threshold)[k],
            decreases 16 - i,
        {
            if count_ones(self.0[i]) >= threshold as u32 {
                out[i] = 255;
            } else {
                out[i] = 0;
            }
            i = i + 1;
        }
        assert(out@ =~= seed_lanes(self.0@, threshold));
        ByteLanes(out)
    }

    fn find(self, offset: usize, len: usize) -> (r: Option<usize>) {
        let n: usize = if len < 16 {
            len
        } else {
            16
        };
        let mut i: usize = 0;
        while i < n
            invariant
                n == scanned(len as nat),
                i <= n,
                offset + n <= usize::MAX,
                first_marked_from(self.0@, i as nat, n as nat) == first_marked_from(
                    self.0@,
                    0,
                    n as nat,
                ),
            decreases n - i,
        {
            if self.0[i] == 255 {
                return Some(offset + i);
            }
            i = i + 1;
        }
        None
    }

    fn shift_lanes(self) -> (r: Self) {
        let x = self.0;
        let mut out = empty_masks();
        let mut j: usize = 0;
        while j < 8
            invariant
                j <= 8,
                forall|k: int, jj: int|
                    0 <= k < 16 && 0 <= jj < 8 ==> (#[trigger] bit(out@[k], jj) <==> (jj < j && k
                        + jj < 16 && bit(x@[k + jj], jj))),
            decreases 8 - j,
        {
            let mask: u8 = 1u8 << (j as u8);
            let mut k: usize = 0;
            while k + j < 16
                invariant
                    j < 8,
                    k + j <= 16,
                    mask == 1u8 << (j as u8),
                    forall|kk: int, jj: int|
                        0 <= kk < 16 && 0 <= jj < 8 ==> (#[trigger] bit(out@[kk], jj) <==> ((jj < j
                            || (jj == j && kk < k)) && kk + jj < 16 && bit(x@[kk + jj], jj))),
                decreases 16 - k - j,
            {
                let old_out = out;
                let lane = out[k] | (x[k + j] & mask);
                out[k] = lane;
                assert forall|kk: int, jj: int| 0 <= kk < 16 && 0 <= jj < 8 implies (#[trigger] bit(
                    out@[kk],
                    jj,
                ) <==> ((jj < j || (jj == j && kk < k + 1)) && kk + jj < 16 && bit(x@[kk + jj], jj)))
                    by {
                    if kk == k {
                        lemma_or_masked_bit(old_out@[kk], x@[k + j], j as u8, jj as u8);
                    } else {
                        assert(out@[kk] == old_out@[kk]);
                    }
                }
                k = k + 1;
            }
            j = j + 1;
        }
        proof {
            assert(is_shifted(out@, x@));
        }
        ByteLanes(out)
    }

    fn load_ref(slice: &[u8]) -> (r: Self) {
        let mut out = [0u8; 16];
        let mut i: usize = 0;
        while i < 16
            invariant
                i <= 16,
                slice@.len() <= 17,
                forall|k: int| 0 <= k < i ==> out@[k] == ref_codes(slice@)[k],
            decreases 16 - i,
        {
            if i + 1 < slice.len() {
                out[i] = encode_pair(slice[i], slice[i + 1]);
            } else {
                out[i] = NO_CODE;
            }
            i = i + 1;
        }
        assert(out@ =~= ref_codes(slice@));
        ByteLanes(out)
    }

    fn load_pattern(slice: &[u8]) -> (r: Self) {
        ByteLanes(fingerprint(slice))
    }

    fn load(slice: &[u8; 16]) -> (r: Self) {
        ByteLanes(*slice)
    }
}

} // verus!
