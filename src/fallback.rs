//! The fingerprint table of a pattern and the scalar seed scanner built on it.
use vstd::prelude::*;
use vstd::slice::slice_subrange;

use crate::encode::{
    bit, code_at, count_ones, empty_masks, encode_pair, lemma_bits_determine_byte, lemma_code_bound,
    lemma_mask_bit,
    lemma_set_bit, ones_below,
};

verus! {

/// Width of the reference window that one pass of the scanner covers, in
/// dinucleotides (a window holds one base more).
pub const WINDOW: usize = 16;

/// How many pattern positions the fingerprint table represents.
pub const LOOK_BACK: usize = 8;

/// The number of pattern positions that a fingerprint table represents for a
/// pattern of `len` bases: one per base pair, at most eight.
pub open spec fn represented(len: nat) -> nat {
    if len <= 1 {
        0
    } else if len - 1 > 8 {
        8
    } else {
        (len - 1) as nat
    }
}

/// `t` is the fingerprint table of `p`: bit `j` of entry `c` is set exactly
/// when pattern position `j` is represented and carries code `c`.
pub open spec fn is_fingerprint(t: Seq<u8>, p: Seq<u8>) -> bool {
    &&& t.len() == 16
    &&& forall|c: int, j: int|
        0 <= c < 16 && 0 <= j < 8 ==> (#[trigger] bit(t[c], j) <==> (j < represented(p.len())
            && code_at(p, j) == c))
}

/// The vote count that a pattern of `len` bases asks of a seed, for a given
/// sensitivity divisor.
pub open spec fn seed_threshold(len: nat, sensitivity: nat) -> nat {
    represented(len) * len / sensitivity / 2
}

/// Pattern position `j` votes for window offset `k` of `w`: the table lists
/// `j` under the code that `w` has at `k + j`, inside the window.
pub open spec fn votes_for(t: Seq<u8>, w: Seq<u8>, k: int, j: int) -> bool {
    k + j + 1 < w.len() && bit(t[code_at(w, k + j) as int], j)
}

/// The votes for window offset `k` among the first `n` pattern positions.
pub open spec fn votes_below(t: Seq<u8>, w: Seq<u8>, k: int, n: nat) -> nat
    decreases n,
{
    if n == 0 {
        0
    } else {
        votes_below(t, w, k, (n - 1) as nat) + if votes_for(t, w, k, n - 1) {
            1nat
        } else {
            0nat
        }
    }
}

/// The votes for window offset `k` of `w`.
pub open spec fn votes(t: Seq<u8>, w: Seq<u8>, k: int) -> nat {
    votes_below(t, w, k, 8)
}

/// Pattern position `j` agrees with reference `r` at offset `o`: the table
/// lists `j` under the code that `r` has at `o + j`.
pub open spec fn agrees(t: Seq<u8>, r: Seq<u8>, o: int, j: int) -> bool {
    o + j + 1 < r.len() && bit(t[code_at(r, o + j) as int], j)
}

/// The agreeing positions for offset `o` among the first `n` pattern
/// positions.
pub open spec fn agreement_below(t: Seq<u8>, r: Seq<u8>, o: int, n: nat) -> nat
    decreases n,
{
    if n == 0 {
        0
    } else {
        agreement_below(t, r, o, (n - 1) as nat) + if agrees(t, r, o, n - 1) {
            1nat
        } else {
            0nat
        }
    }
}

/// The number of pattern positions that agree with reference `r` along the
/// diagonal that starts at offset `o`, whatever window the offset is seen in.
pub open spec fn agreement(t: Seq<u8>, r: Seq<u8>, o: int) -> nat {
    agreement_below(t, r, o, 8)
}

/// The votes of a window that lies inside a reference are agreeing
/// positions of the reference: they count no more than the agreement.
pub proof fn lemma_votes_within_agreement(
    t: Seq<u8>,
    r: Seq<u8>,
    s: int,
    e: int,
    k: int,
    n: nat,
)
    requires
        0 <= s <= e <= r.len(),
        0 <= k,
    ensures
        votes_below(t, r.subrange(s, e), k, n) <= agreement_below(t, r, s + k, n),
    decreases n,
{
    if n > 0 {
        lemma_votes_within_agreement(t, r, s, e, k, (n - 1) as nat);
        let w = r.subrange(s, e);
        let j = n - 1;
        if votes_for(t, w, k, j) {
            assert(w[k + j] == r[s + k + j]);
            assert(w[k + j + 1] == r[s + k + j + 1]);
            assert(agrees(t, r, s + k, j));
        }
    }
}

/// What a scanner needs of a pattern: its fingerprint table, the vote count
/// that a seed needs, and the pattern's length.
pub ghost struct PatternsView {
    pub table: Seq<u8>,
    pub threshold: nat,
    pub len: nat,
}

/// Offset `k` of window `w`, which starts at `offset` in a reference of
/// `total` bases, is a seed: it has enough votes and the pattern placed there
/// ends inside the reference.
pub open spec fn accepts(v: PatternsView, w: Seq<u8>, offset: nat, total: nat, k: int) -> bool {
    &&& votes(v.table, w, k) >= v.threshold
    &&& offset + k + v.len <= total
}

/// The seeds among the first `n` offsets of window `w`, as reference offsets,
/// in increasing order.
pub open spec fn window_hits(v: PatternsView, w: Seq<u8>, offset: nat, total: nat, n: nat) -> Seq<
    usize,
>
    decreases n,
{
    if n == 0 {
        seq![]
    } else {
        let prev = window_hits(v, w, offset, total, (n - 1) as nat);
        if accepts(v, w, offset, total, n - 1) {
            prev.push((offset + n - 1) as usize)
        } else {
            prev
        }
    }
}

/// The seeds of window `w`: one candidate offset per base pair of the window.
pub open spec fn window_seeds(v: PatternsView, w: Seq<u8>, offset: nat, total: nat) -> Seq<usize> {
    window_hits(v, w, offset, total, if w.len() == 0 { 0 } else { (w.len() - 1) as nat })
}

/// The seeds of reference `r` from window start `start` on: windows of
/// seventeen bases advanced by sixteen minus the pattern length while a full
/// window fits past `start`, then one window over the remaining tail.
pub open spec fn scan_from(v: PatternsView, r: Seq<u8>, start: nat) -> Seq<usize>
    decreases r.len() - start,
{
    if start + 16 < r.len() && v.len < 16 {
        window_seeds(v, r.subrange(start as int, start + 17int), start, r.len()) + scan_from(
            v,
            r,
            (start + (16 - v.len)) as nat,
        )
    } else if start < r.len() {
        window_seeds(v, r.subrange(start as int, r.len() as int), start, r.len())
    } else {
        seq![]
    }
}

/// The seeds that the scalar scanner reports for reference `r`, in the order
/// found.
pub open spec fn seeds(v: PatternsView, r: Seq<u8>) -> Seq<usize> {
    scan_from(v, r, 0)
}

/// A byte whose bits are the votes for offset `k` counts those votes.
pub proof fn lemma_count_votes(x: u8, t: Seq<u8>, w: Seq<u8>, k: int, n: nat)
    requires
        n <= 8,
        forall|j: int| 0 <= j < 8 ==> (#[trigger] bit(x, j) <==> votes_for(t, w, k, j)),
    ensures
        ones_below(x, n) == votes_below(t, w, k, n),
    decreases n,
{
    if n > 0 {
        lemma_count_votes(x, t, w, k, (n - 1) as nat);
        assert(bit(x, n - 1) <==> votes_for(t, w, k, n - 1));
    }
}

/// Every seed of a window is the offset of a pattern placement that ends
/// inside the reference.
proof fn lemma_window_hits_within(v: PatternsView, w: Seq<u8>, offset: nat, total: nat, n: nat)
    requires
        total <= usize::MAX,
    ensures
        forall|i: int|
            0 <= i < window_hits(v, w, offset, total, n).len() ==> #[trigger] window_hits(
                v,
                w,
                offset,
                total,
                n,
            )[i] + v.len <= total,
    decreases n,
{
    if n > 0 {
        lemma_window_hits_within(v, w, offset, total, (n - 1) as nat);
        let prev = window_hits(v, w, offset, total, (n - 1) as nat);
        if accepts(v, w, offset, total, n - 1) {
            let cur = prev.push((offset + n - 1) as usize);
            assert forall|i: int| 0 <= i < cur.len() implies #[trigger] cur[i] + v.len <= total by {
                if i < prev.len() {
                    assert(cur[i] == prev[i]);
                }
            }
        }
    }
}

/// Every offset reported by the scalar scanner leaves room for the whole
/// pattern: `o + len(p) <= len(r)`.
pub proof fn lemma_seeds_within_reference(v: PatternsView, r: Seq<u8>, start: nat)
    requires
        r.len() <= usize::MAX,
    ensures
        forall|i: int|
            0 <= i < scan_from(v, r, start).len() ==> #[trigger] scan_from(v, r, start)[i] + v.len
                <= r.len(),
    decreases r.len() - start,
{
    if start + 16 < r.len() && v.len < 16 {
        let w = r.subrange(start as int, start + 17int);
        lemma_window_hits_within(v, w, start, r.len(), (w.len() - 1) as nat);
        lemma_seeds_within_reference(v, r, (start + (16 - v.len)) as nat);
        let head = window_seeds(v, w, start, r.len());
        let rest = scan_from(v, r, (start + (16 - v.len)) as nat);
        assert forall|i: int| 0 <= i < (head + rest).len() implies #[trigger] (head + rest)[i]
            + v.len <= r.len() by {
            if i >= head.len() {
                assert((head + rest)[i] == rest[i - head.len()]);
            }
        }
    } else if start < r.len() {
        let w = r.subrange(start as int, r.len() as int);
        lemma_window_hits_within(v, w, start, r.len(), if w.len() == 0 { 0 } else { (w.len() - 1) as nat });
    }
}

/// The scalar scanner's output depends on the pattern's table, threshold
/// and length and on the reference alone: two scans of one reference with
/// equal patterns report the same seeds in the same order.
pub proof fn lemma_seeds_deterministic(a: Patterns, b: Patterns, r: Seq<u8>)
    requires
        a@ == b@,
    ensures
        seeds(a@, r) == seeds(b@, r),
{
}

/// Building a pattern twice from the same bases and sensitivity gives the
/// same table, bit for bit, and the same threshold and length.
pub proof fn lemma_construction_deterministic(
    p: Seq<u8>,
    sensitivity: nat,
    x: PatternsView,
    y: PatternsView,
)
    requires
        is_fingerprint(x.table, p),
        is_fingerprint(y.table, p),
        x.threshold == seed_threshold(p.len(), sensitivity),
        y.threshold == seed_threshold(p.len(), sensitivity),
        x.len == p.len(),
        y.len == p.len(),
    ensures
        x == y,
{
    lemma_fingerprint_unique(p, x.table, y.table);
}

/// A pattern has one fingerprint table.
pub proof fn lemma_fingerprint_unique(p: Seq<u8>, x: Seq<u8>, y: Seq<u8>)
    requires
        is_fingerprint(x, p),
        is_fingerprint(y, p),
    ensures
        x == y,
{
    assert forall|c: int| 0 <= c < 16 implies x[c] == y[c] by {
        assert forall|j: int| 0 <= j < 8 implies (bit(x[c], j) <==> bit(y[c], j)) by {
            assert(bit(x[c], j) <==> (j < represented(p.len()) && code_at(p, j) == c));
            assert(bit(y[c], j) <==> (j < represented(p.len()) && code_at(p, j) == c));
        }
        lemma_bits_determine_byte(x[c], y[c]);
    }
    assert(x =~= y);
}

/// Where the whole pattern placed at an offset fits in the window, the
/// window's votes for that offset are the reference's agreement there.
proof fn lemma_votes_equal_agreement(
    t: Seq<u8>,
    p: Seq<u8>,
    r: Seq<u8>,
    s: int,
    e: int,
    k: int,
    n: nat,
)
    requires
        is_fingerprint(t, p),
        0 <= s <= e <= r.len(),
        0 <= k,
        k + p.len() <= e - s,
        n <= 8,
    ensures
        votes_below(t, r.subrange(s, e), k, n) == agreement_below(t, r, s + k, n),
    decreases n,
{
    if n > 0 {
        lemma_votes_equal_agreement(t, p, r, s, e, k, (n - 1) as nat);
        let w = r.subrange(s, e);
        let j = n - 1;
        if agrees(t, r, s + k, j) {
            lemma_code_bound(r[s + k + j], r[s + k + j + 1]);
            assert(bit(t[code_at(r, s + k + j) as int], j));
            assert(j < represented(p.len()));
            assert(w[k + j] == r[s + k + j]);
            assert(w[k + j + 1] == r[s + k + j + 1]);
        }
        if votes_for(t, w, k, j) {
            assert(w[k + j] == r[s + k + j]);
            assert(w[k + j + 1] == r[s + k + j + 1]);
        }
    }
}

/// An offset that a window accepts is among the window's seeds.
proof fn lemma_window_hits_contain(
    v: PatternsView,
    w: Seq<u8>,
    offset: nat,
    total: nat,
    n: nat,
    k: int,
)
    requires
        0 <= k < n,
        accepts(v, w, offset, total, k),
    ensures
        window_hits(v, w, offset, total, n).contains((offset + k) as usize),
    decreases n,
{
    let prev = window_hits(v, w, offset, total, (n - 1) as nat);
    if k < n - 1 {
        lemma_window_hits_contain(v, w, offset, total, (n - 1) as nat, k);
        let i = choose|i: int| 0 <= i < prev.len() && prev[i] == (offset + k) as usize;
        if accepts(v, w, offset, total, n - 1) {
            assert(prev.push((offset + n - 1) as usize)[i] == prev[i]);
        }
    } else {
        assert(prev.push((offset + k) as usize)[prev.len() as int] == (offset + k) as usize);
    }
}

/// The scalar scanner misses no offset: one where the pattern fits inside
/// the reference, that starts a base pair, and whose agreement with the
/// reference reaches the threshold is among the seeds.
pub proof fn lemma_seeds_complete(v: PatternsView, p: Seq<u8>, r: Seq<u8>, start: nat, o: nat)
    requires
        is_fingerprint(v.table, p),
        v.len == p.len(),
        start <= o,
        o + p.len() <= r.len(),
        o + 1 < r.len(),
        agreement(v.table, r, o as int) >= v.threshold,
    ensures
        scan_from(v, r, start).contains(o as usize),
    decreases r.len() - start,
{
    let k = o - start;
    if start + 16 < r.len() && v.len < 16 {
        let w = r.subrange(start as int, start + 17int);
        let head = window_seeds(v, w, start, r.len());
        let rest = scan_from(v, r, (start + (16 - v.len)) as nat);
        if o + p.len() <= start + 17 && o + 2 <= start + 17 {
            lemma_votes_equal_agreement(v.table, p, r, start as int, start + 17int, k, 8);
            lemma_window_hits_contain(v, w, start, r.len(), 16, k);
            let i = choose|i: int| 0 <= i < head.len() && head[i] == o as usize;
            assert((head + rest)[i] == head[i]);
        } else {
            lemma_seeds_complete(v, p, r, (start + (16 - v.len)) as nat, o);
            let i = choose|i: int| 0 <= i < rest.len() && rest[i] == o as usize;
            assert((head + rest)[head.len() + i] == rest[i]);
        }
    } else {
        let w = r.subrange(start as int, r.len() as int);
        lemma_votes_equal_agreement(v.table, p, r, start as int, r.len() as int, k, 8);
        lemma_window_hits_contain(v, w, start, r.len(), (w.len() - 1) as nat, k);
    }
}

/// The number of pattern positions that the table of a pattern of `len`
/// bases represents.
fn represented_positions(len: usize) -> (n: usize)
    ensures
        n == represented(len as nat),
        n <= 8,
{
    if len <= 1 {
        0
    } else if len - 1 > LOOK_BACK {
        LOOK_BACK
    } else {
        len - 1
    }
}

/// The fingerprint table of pattern `a`.
pub fn fingerprint(a: &[u8]) -> (t: [u8; 16])
    ensures
        is_fingerprint(t@, a@),
{
    let mut patterns = empty_masks();
    let n = represented_positions(a.len());
        let mut i: usize = 0;
    while i < n
        invariant
            n == represented(a@.len()),
            n <= 8,
            i <= n,
            forall|c: int, j: int|
                0 <= c < 16 && 0 <= j < 8 ==> (#[trigger] bit(patterns@[c], j) <==> (j < i
                    && code_at(a@, j) == c)),
        decreases n - i,
    {
        let idx = encode_pair(a[i], a[i + 1]);
        let old_patterns = patterns;
        let entry = patterns[idx as usize] | (1u8 << (i as u8));
        patterns[idx as usize] = entry;
        assert forall|c: int, j: int| 0 <= c < 16 && 0 <= j < 8 implies (#[trigger] bit(
            patterns@[c],
            j,
        ) <==> (j < i + 1 && code_at(a@, j) == c)) by {
            if c == idx as int {
                lemma_set_bit(old_patterns@[c], i as u8, j as u8);
            } else {
                assert(patterns@[c] == old_patterns@[c]);
            }
        }
        i = i + 1;
    }
    patterns
}

/// The fingerprint table of a query pattern, with the vote count that a seed
/// needs.
#[derive(Clone, Copy, Debug)]
pub struct Patterns {
    patterns: [u8; 16],
    threshold: u128,
    len: usize,
}

impl View for Patterns {
    type V = PatternsView;

    closed spec fn view(&self) -> PatternsView {
        PatternsView {
            table: self.patterns@,
            threshold: self.threshold as nat,
            len: self.len as nat,
        }
    }
}

impl Patterns {
    /// Builds the fingerprint table of `a`; a seed needs
    /// `represented * len / sensitivity / 2` votes.
    pub fn new(a: &[u8], sensitivity: usize) -> (r: Self)
        requires
            sensitivity > 0,
        ensures
            is_fingerprint(r@.table, a@),
            r@.threshold == seed_threshold(a@.len(), sensitivity as nat),
            r@.len == a@.len(),
    {
        let patterns = fingerprint(a);
        let n = represented_positions(a.len());
        assert((n as u128) * (a.len() as u128) <= 8 * 0xffff_ffff_ffff_ffffu128) by (nonlinear_arith)
            requires
                n <= 8,
                a.len() <= 0xffff_ffff_ffff_ffffu128,
        ;
        let threshold = (n as u128) * (a.len() as u128) / (sensitivity as u128) / 2;
        Patterns { patterns, threshold, len: a.len() }
    }

    /// The seeds of `ref_`, a reference of at most sixteen bases or, for
    /// longer ones, with a pattern shorter than sixteen bases.
    pub fn seed(&self, ref_: &[u8]) -> (r: Vec<usize>)
        requires
            self@.len < 16 || ref_@.len() <= 16,
        ensures
            r@ == seeds(self@, ref_@),
    {
        let m = ref_.len();
        if m <= WINDOW {
            assert(ref_@.subrange(0, m as int) =~= ref_@);
            return self.extract_seeds(ref_, 0, m);
        }
        let step = WINDOW - self.len;
        let mut start: usize = 0;
        let mut found: Vec<usize> = Vec::new();
        while start < m - WINDOW
            invariant
                m == ref_@.len(),
                m > 16,
                self@.len < 16,
                step == 16 - self@.len,
                start < m,
                found@ + scan_from(self@, ref_@, start as nat) == seeds(self@, ref_@),
            decreases m - start,
        {
            let window = slice_subrange(ref_, start, start + WINDOW + 1);
            let mut c = self.extract_seeds(window, start, m);
            let ghost before = found@;
            found.append(&mut c);
            assert(before + scan_from(self@, ref_@, start as nat) =~= found@ + scan_from(
                self@,
                ref_@,
                (start + step) as nat,
            ));
            start = start + step;
        }
        let window = slice_subrange(ref_, start, m);
        let mut c = self.extract_seeds(window, start, m);
        found.append(&mut c);
        assert(scan_from(self@, ref_@, start as nat) == window_seeds(self@, window@, start as nat, m as nat));
        found
    }

    /// The seeds of one window of at most seventeen bases, reported as
    /// `offset` plus their index in the window; a placement that would end
    /// past `len` bases is not reported.
    fn extract_seeds(&self, ref_: &[u8], offset: usize, len: usize) -> (r: Vec<usize>)
        requires
            ref_@.len() <= 17,
            offset + ref_@.len() <= usize::MAX,
        ensures
            r@ == window_seeds(self@, ref_@, offset as nat, len as nat),
    {
        let ghost v = self@;
        let ghost t = self@.table;
        let ghost w = ref_@;
        let m = ref_.len();
        let mut c = empty_masks();
        let mut pos: Vec<usize> = Vec::new();
        let mut i: usize = 0;
        while i + 1 < m
            invariant
                w == ref_@,
                m == w.len(),
                m <= 17,
                offset + m <= usize::MAX,
                v == self@,
                t == v.table,
                i == 0 || i < m,
                forall|k: int, j: int|
                    0 <= k < 16 && 0 <= j < 8 ==> (#[trigger] bit(c@[k], j) <==> (k + j < i
                        && votes_for(t, w, k, j))),
                pos@ == window_hits(v, w, offset as nat, len as nat, if i > 8 { (i - 8) as nat } else { 0 }),
            decreases m - i,
        {
            let code = encode_pair(ref_[i], ref_[i + 1]);
            let fp = self.patterns[code as usize];
            let to: usize = if LOOK_BACK > i { i + 1 } else { LOOK_BACK };
            let mut j: usize = 0;
            while j < to
                invariant
                    i + 1 < m,
                    w == ref_@,
                    m == w.len(),
                    m <= 17,
                    to <= 8,
                    to <= i + 1,
                    j <= to,
                    fp == t[code as int],
                    code == code_at(w, i as int),
                    t == v.table,
                    v == self@,
                    forall|k: int, jj: int|
                        0 <= k < 16 && 0 <= jj < 8 ==> (#[trigger] bit(c@[k], jj) <==> ((k + jj < i
                            || (k + jj == i && jj < j)) && votes_for(t, w, k, jj))),
                decreases to - j,
            {
                let mask: u8 = 1u8 << (j as u8);
                proof {
                    lemma_mask_bit(fp, j as u8);
                }
                let old_c = c;
                let cell_index = i - j;
                if fp & mask == mask {
                    let cell = c[cell_index] | mask;
                    c[cell_index] = cell;
                }
                assert(bit(fp, j as int) <==> votes_for(t, w, i - j, j as int));
                assert forall|k: int, jj: int| 0 <= k < 16 && 0 <= jj < 8 implies (#[trigger] bit(
                    c@[k],
                    jj,
                ) <==> ((k + jj < i || (k + jj == i && jj < j + 1)) && votes_for(t, w, k, jj))) by {
                    if k == cell_index && fp & mask == mask {
                        lemma_set_bit(old_c@[k], j as u8, jj as u8);
                    } else {
                        assert(c@[k] == old_c@[k]);
                    }
                }
                j = j + 1;
            }
            if i >= LOOK_BACK {
                let k = i - LOOK_BACK;
                let votes_k = count_ones(c[k]);
                proof {
                    lemma_count_votes(c@[k as int], t, w, k as int, 8);
                }
                if votes_k as u128 >= self.threshold && offset + k <= len && self.len <= len - (offset + k) {
                    pos.push(offset + k);
                }
            }
            i = i + 1;
        }
        let mut k: usize = if m >= 9 { m - 9 } else { 0 };
        let end: usize = if m >= 1 { m - 1 } else { 0 };
        while k < end
            invariant
                m == w.len(),
                m <= 17,
                offset + m <= usize::MAX,
                v == self@,
                t == v.table,
                end == if m >= 1 { m - 1 } else { 0 },
                k <= end,
                forall|kk: int, j: int|
                    0 <= kk < 16 && 0 <= j < 8 ==> (#[trigger] bit(c@[kk], j) <==> votes_for(t, w, kk, j)),
                pos@ == window_hits(v, w, offset as nat, len as nat, k as nat),
            decreases end - k,
        {
            let votes_k = count_ones(c[k]);
            proof {
                lemma_count_votes(c@[k as int], t, w, k as int, 8);
            }
            if votes_k as u128 >= self.threshold && offset + k <= len && self.len <= len - (offset + k) {
                pos.push(offset + k);
            }
            k = k + 1;
        }
        pos
    }
}

} // verus!
