//! The capability interface of a sixteen-lane byte vector, and the seed
//! driver that every backend shares.
use vstd::prelude::*;
use vstd::slice::slice_subrange;

use crate::encode::{bit, code_at, popcount};
use crate::fallback::{
    agreement, is_fingerprint, lemma_count_votes, lemma_fingerprint_unique, lemma_seeds_complete,
    lemma_votes_within_agreement, seeds, votes, votes_for, PatternsView,
};

verus! {

/// The lane value past a window's last base pair: an index that the table
/// lookup maps to zero, so that such lanes cast no votes.
pub const NO_CODE: u8 = 16;

/// Lane `i` holds `t[indices[i]]`, or zero where the index is out of range.
pub open spec fn shuffled(t: Seq<u8>, indices: Seq<u8>) -> Seq<u8> {
    Seq::new(16, |i: int| if indices[i] < 16 { t[indices[i] as int] } else { 0u8 })
}

/// All ones in the lanes whose population count reaches `threshold`, zero in
/// the others.
pub open spec fn seed_lanes(x: Seq<u8>, threshold: u8) -> Seq<u8> {
    Seq::new(16, |i: int| if popcount(x[i]) >= threshold { 255u8 } else { 0u8 })
}

/// The codes of the base pairs of a window of at most seventeen bases, one
/// per lane; lanes past the window's last pair hold `NO_CODE`.
pub open spec fn ref_codes(w: Seq<u8>) -> Seq<u8> {
    Seq::new(16, |i: int| if i + 1 < w.len() { code_at(w, i) } else { NO_CODE })
}

/// `r` is `x` with bit `j` of each lane moved down `j` lanes: bit `j` of lane
/// `k` of `r` is bit `j` of lane `k + j` of `x`.
pub open spec fn is_shifted(r: Seq<u8>, x: Seq<u8>) -> bool {
    &&& r.len() == 16
    &&& forall|k: int, j: int|
        0 <= k < 16 && 0 <= j < 8 ==> (#[trigger] bit(r[k], j) <==> (k + j < 16 && bit(x[k + j], j)))
}

/// The first lane in `i..n` that is all ones.
pub open spec fn first_marked_from(x: Seq<u8>, i: nat, n: nat) -> Option<nat>
    decreases n - i,
{
    if i >= n {
        None
    } else if x[i as int] == 255 {
        Some(i)
    } else {
        first_marked_from(x, i + 1, n)
    }
}

/// The number of lanes that a search over `len` lanes looks at.
pub open spec fn scanned(len: nat) -> nat {
    if len < 16 {
        len
    } else {
        16
    }
}

/// The first offset in `i..n` of window `w` whose votes reach `threshold`.
pub open spec fn first_hit_from(t: Seq<u8>, w: Seq<u8>, threshold: nat, i: nat, n: nat) -> Option<
    nat,
>
    decreases n - i,
{
    if i >= n {
        None
    } else if votes(t, w, i as int) >= threshold {
        Some(i)
    } else {
        first_hit_from(t, w, threshold, i + 1, n)
    }
}

/// How many leading offsets of a window that starts at `start` and has
/// `pairs` base pairs are worth searching in a reference of `total` bases:
/// those that start a base pair and where a pattern of `len` bases ends
/// inside the reference.
pub open spec fn candidates(total: nat, len: nat, start: nat, pairs: nat) -> nat {
    if start + len > total {
        0
    } else if pairs <= total - len - start + 1 {
        pairs
    } else {
        (total - len - start + 1) as nat
    }
}

/// The offset that the vector driver reports for reference `r` and a
/// pattern of `len` bases from cursor `start` on: windows of seventeen bases
/// ten bases apart while a full window fits, then one window over the tail.
pub open spec fn located(t: Seq<u8>, r: Seq<u8>, len: nat, threshold: u8, start: nat) -> Option<nat>
    decreases r.len() - start,
{
    if start + 16 < r.len() {
        match first_hit_from(
            t,
            r.subrange(start as int, start + 17int),
            threshold as nat,
            0,
            candidates(r.len(), len, start, 16),
        ) {
            Some(k) => Some(start + k),
            None => located(t, r, len, threshold, start + 10),
        }
    } else if start < r.len() {
        match first_hit_from(
            t,
            r.subrange(start as int, r.len() as int),
            threshold as nat,
            0,
            candidates(r.len(), len, start, (r.len() - start - 1) as nat),
        ) {
            Some(k) => Some(start + k),
            None => None,
        }
    } else {
        None
    }
}

/// An offset found in `i..n` lies in `i..n` and has enough votes.
proof fn lemma_first_hit_bound(t: Seq<u8>, w: Seq<u8>, threshold: nat, i: nat, n: nat)
    ensures
        first_hit_from(t, w, threshold, i, n) matches Some(k) ==> i <= k < n && votes(
            t,
            w,
            k as int,
        ) >= threshold,
    decreases n - i,
{
    if i < n {
        lemma_first_hit_bound(t, w, threshold, i + 1, n);
    }
}

/// Searching the marked lanes finds the first offset whose votes reach the
/// threshold.
proof fn lemma_first_marked(marks: Seq<u8>, t: Seq<u8>, w: Seq<u8>, threshold: nat, i: nat, n: nat)
    requires
        n <= 16,
        forall|k: int| 0 <= k < 16 ==> (#[trigger] marks[k] == 255 <==> votes(t, w, k) >= threshold),
    ensures
        first_marked_from(marks, i, n) == first_hit_from(t, w, threshold, i, n),
    decreases n - i,
{
    if i < n {
        lemma_first_marked(marks, t, w, threshold, i + 1, n);
    }
}

/// An offset that the vector driver reports lies at or after the cursor,
/// starts a base pair, leaves room for the whole pattern, and has at least
/// `threshold` pattern positions agreeing with the reference.
proof fn lemma_located_fits(t: Seq<u8>, r: Seq<u8>, len: nat, threshold: u8, start: nat, o: nat)
    requires
        located(t, r, len, threshold, start) == Some(o),
    ensures
        start <= o,
        o + len <= r.len(),
        o + 1 < r.len(),
        agreement(t, r, o as int) >= threshold,
    decreases r.len() - start,
{
    if start + 16 < r.len() {
        let w = r.subrange(start as int, start + 17int);
        let n = candidates(r.len(), len, start, 16);
        lemma_first_hit_bound(t, w, threshold as nat, 0, n);
        match first_hit_from(t, w, threshold as nat, 0, n) {
            Some(k) => {
                lemma_votes_within_agreement(t, r, start as int, start + 17int, k as int, 8);
            },
            None => {
                lemma_located_fits(t, r, len, threshold, start + 10, o);
            },
        }
    } else if start < r.len() {
        let w = r.subrange(start as int, r.len() as int);
        let n = candidates(r.len(), len, start, (r.len() - start - 1) as nat);
        lemma_first_hit_bound(t, w, threshold as nat, 0, n);
        let k = first_hit_from(t, w, threshold as nat, 0, n)->Some_0;
        lemma_votes_within_agreement(t, r, start as int, r.len() as int, k as int, 8);
    }
}

/// Every offset that the vector driver reports, from any cursor, is a seed
/// that the scalar scanner reports for the same pattern and threshold.
pub proof fn lemma_located_in_seeds(
    p: Seq<u8>,
    t: Seq<u8>,
    v: PatternsView,
    r: Seq<u8>,
    threshold: u8,
    start: nat,
    o: nat,
)
    requires
        is_fingerprint(t, p),
        is_fingerprint(v.table, p),
        v.len == p.len(),
        v.threshold == threshold,
        located(t, r, p.len(), threshold, start) == Some(o),
    ensures
        seeds(v, r).contains(o as usize),
{
    lemma_located_fits(t, r, p.len(), threshold, start, o);
    lemma_fingerprint_unique(p, t, v.table);
    lemma_seeds_complete(v, p, r, 0, o);
}

/// The vector driver's answer depends on the pattern's lanes, the
/// reference, the pattern length, the threshold and the cursor alone: two
/// calls with equal lanes report the same offset and leave the cursor in
/// the same place.
pub proof fn lemma_located_deterministic<V: SIMDna>(
    a: V,
    b: V,
    r: Seq<u8>,
    len: nat,
    threshold: u8,
    start: nat,
)
    requires
        a.lanes() == b.lanes(),
    ensures
        located(a.lanes(), r, len, threshold, start) == located(b.lanes(), r, len, threshold, start),
{
}

/// A sixteen-lane vector of bytes, with the operations that the seed driver
/// needs. `lanes` is what a vector holds.
pub trait SIMDna: Sized + Copy {
    /// The sixteen lanes of the vector, lane 0 first.
    spec fn lanes(&self) -> Seq<u8>;

    /// Every vector has sixteen lanes.
    proof fn lemma_sixteen_lanes(v: &Self)
        ensures
            v.lanes().len() == 16,
    ;

    /// The number of lanes.
    fn block_size() -> (r: usize)
        ensures
            r == 16,
    ;

    /// Table lookup: lane `i` of the result is lane `indices[i]` of `self`,
    /// zero where that index is sixteen or more.
    fn shuffle_bytes(self, indices: Self) -> (r: Self)
        ensures
            r.lanes() == shuffled(self.lanes(), indices.lanes()),
    ;

    /// All ones in the lanes whose population count reaches `threshold`,
    /// zero in the others.
    fn fill_seed_lanes(self, threshold: u8) -> (r: Self)
        ensures
            r.lanes() == seed_lanes(self.lanes(), threshold),
    ;

    /// The first all-ones lane among the first `len` lanes, as `offset` plus
    /// its index.
    fn find(self, offset: usize, len: usize) -> (r: Option<usize>)
        requires
            offset + scanned(len as nat) <= usize::MAX,
        ensures
            r == match first_marked_from(self.lanes(), 0, scanned(len as nat)) {
                Some(i) => Some((offset + i) as usize),
                None => None::<usize>,
            },
    ;

    /// Lines up each pattern position's bit with the lane where the
    /// placement starts: bit `j` of lane `k + j` moves to lane `k`.
    fn shift_lanes(self) -> (r: Self)
        ensures
            is_shifted(r.lanes(), self.lanes()),
    ;

    /// The codes of the base pairs of a window of at most seventeen bases.
    fn load_ref(slice: &[u8]) -> (r: Self)
        requires
            slice@.len() <= 17,
        ensures
            r.lanes() == ref_codes(slice@),
    ;

    /// The fingerprint table of a pattern, one lane per code.
    fn load_pattern(slice: &[u8]) -> (r: Self)
        ensures
            is_fingerprint(r.lanes(), slice@),
    ;

    /// The vector with the given lanes.
    fn load(slice: &[u8; 16]) -> (r: Self)
        ensures
            r.lanes() == slice@,
    ;

    /// Finds the first seed of a pattern of `pattern_len` bases from the
    /// cursor `start` on, with `self` as the pattern's table: an offset that
    /// starts a base pair, where the pattern ends inside `ref_`, and whose
    /// votes reach `threshold`. On success the cursor moves past the seed, so
    /// that a further call finds the next one; otherwise it stays.
    fn locate(self, ref_: &[u8], pattern_len: usize, threshold: u8, start: &mut usize) -> (r: Option<
        usize,
    >)
        ensures
            match located(self.lanes(), ref_@, pattern_len as nat, threshold, *old(start) as nat) {
                Some(i) => r == Some(i as usize) && *final(start) == i + 1,
                None => r is None && *final(start) == *old(start),
            },
    {
        let m = ref_.len();
        let mut pos = *start;
        let ghost t = self.lanes();
        let ghost len = pattern_len as nat;
        proof {
            Self::lemma_sixteen_lanes(&self);
        }
        while pos < m && m - pos > 16
            invariant
                m == ref_@.len(),
                t == self.lanes(),
                t.len() == 16,
                len == pattern_len,
                located(t, ref_@, len, threshold, pos as nat) == located(
                    t,
                    ref_@,
                    len,
                    threshold,
                    *old(start) as nat,
                ),
                *start == *old(start),
            decreases m - pos,
        {
            let w = slice_subrange(ref_, pos, pos + 17);
            let n = candidate_lanes(m, pattern_len, pos, 16);
            let idx = self.window_seed(w, threshold, pos, n);
            proof {
                lemma_first_hit_bound(t, w@, threshold as nat, 0, n as nat);
            }
            if let Some(i) = idx {
                *start = i + 1;
                return idx;
            }
            pos = pos + 10;
        }
        if pos < m {
            let w = slice_subrange(ref_, pos, m);
            let n = candidate_lanes(m, pattern_len, pos, m - pos - 1);
            let idx = self.window_seed(w, threshold, pos, n);
            proof {
                lemma_first_hit_bound(t, w@, threshold as nat, 0, n as nat);
            }
            if let Some(i) = idx {
                *start = i + 1;
                return idx;
            }
        }
        None
    }

    /// The first offset among the first `len` of window `w` whose votes
    /// reach `threshold`, as `offset` plus its index.
    fn window_seed(self, w: &[u8], threshold: u8, offset: usize, len: usize) -> (r: Option<usize>)
        requires
            w@.len() <= 17,
            len <= 16,
            offset + len <= usize::MAX,
        ensures
            r == match first_hit_from(self.lanes(), w@, threshold as nat, 0, len as nat) {
                Some(i) => Some((offset + i) as usize),
                None => None::<usize>,
            },
    {
        let ghost t = self.lanes();
        let codes = Self::load_ref(w);
        let looked = self.shuffle_bytes(codes);
        let aligned = looked.shift_lanes();
        let marks = aligned.fill_seed_lanes(threshold);
        proof {
            Self::lemma_sixteen_lanes(&self);
            assert forall|k: int| 0 <= k < 16 implies (#[trigger] marks.lanes()[k] == 255
                <==> votes(t, w@, k) >= threshold) by {
                assert forall|j: int| 0 <= j < 8 implies (#[trigger] bit(aligned.lanes()[k], j)
                    <==> votes_for(t, w@, k, j)) by {
                    if k + j < 16 {
                        if k + j + 1 < w@.len() {
                            crate::encode::lemma_code_bound(w@[k + j], w@[k + j + 1]);
                            assert(looked.lanes()[k + j] == t[code_at(w@, k + j) as int]);
                        } else {
                            assert(looked.lanes()[k + j] == 0u8);
                            let s = j as u8;
                            assert((0u8 >> s) & 1u8 == 0u8) by (bit_vector);
                        }
                    }
                }
                lemma_count_votes(aligned.lanes()[k], t, w@, k, 8);
            }
            lemma_first_marked(marks.lanes(), t, w@, threshold as nat, 0, len as nat);
        }
        marks.find(offset, len)
    }
}

/// The number of leading offsets of a window worth searching: see
/// `candidates`.
fn candidate_lanes(total: usize, len: usize, start: usize, pairs: usize) -> (n: usize)
    requires
        start <= total,
    ensures
        n == candidates(total as nat, len as nat, start as nat, pairs as nat),
{
    if total - start < len {
        0
    } else if total - start - len >= pairs {
        pairs
    } else {
        total - start - len + 1
    }
}

} // verus!
