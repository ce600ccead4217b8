//! Combinatorial and bookkeeping parts of the plate solver.

use vstd::prelude::*;

verus! {

/// Status codes for a solve attempt.
#[derive(Debug, Clone, Copy, PartialEq, Eq, Structural)]
pub enum SolveStatus {
    MatchFound,
    NoMatch,
    Timeout,
    Cancelled,
    TooFew,
}

/// A strictly increasing 4-tuple of indices below `n`.
pub open spec fn valid_combo(c: [usize; 4], n: nat) -> bool {
    c[0] < c[1] && c[1] < c[2] && c[2] < c[3] && c[3] < n
}

/// Strict lexicographic order on 4-tuples.
pub open spec fn lex_lt(a: [usize; 4], b: [usize; 4]) -> bool {
    ||| a[0] < b[0]
    ||| (a[0] == b[0] && a[1] < b[1])
    ||| (a[0] == b[0] && a[1] == b[1] && a[2] < b[2])
    ||| (a[0] == b[0] && a[1] == b[1] && a[2] == b[2] && a[3] < b[3])
}

/// The lexicographic successor of a valid combination, if any: the rightmost
/// position that can still grow is incremented and the positions after it are
/// reset to consecutive values.
pub open spec fn next_combo(c: [usize; 4], n: nat) -> Option<[usize; 4]> {
    if c[3] + 1 < n {
        Some([c[0], c[1], c[2], (c[3] + 1) as usize])
    } else if c[2] + 2 < n {
        Some([c[0], c[1], (c[2] + 1) as usize, (c[2] + 2) as usize])
    } else if c[1] + 3 < n {
        Some([c[0], (c[1] + 1) as usize, (c[1] + 2) as usize, (c[1] + 3) as usize])
    } else if c[0] + 4 < n {
        Some([(c[0] + 1) as usize, (c[0] + 2) as usize, (c[0] + 3) as usize, (c[0] + 4) as usize])
    } else {
        None
    }
}


/// Lazily yields all 4-element combinations of `[0, n)` in lexicographic
/// order, without materialising them.
pub struct Combinations4 {
    n: usize,
    cur: [usize; 4],
    done: bool,
}

impl Combinations4 {
    /// Well-formedness: while not exhausted, `cur` is the next combination.
    pub closed spec fn wf(&self) -> bool {
        !self.done ==> valid_combo(self.cur, self.n as nat)
    }

    /// Upper bound (exclusive) of the indices.
    pub closed spec fn bound(&self) -> nat {
        self.n as nat
    }

    /// The combination the next call yields, or `None` once exhausted.
    pub closed spec fn pending(&self) -> Option<[usize; 4]> {
        if self.done { None } else { Some(self.cur) }
    }

    /// Starts the enumeration at `[0, 1, 2, 3]`; empty when `n < 4`.
    pub fn new(n: usize) -> (it: Self)
        ensures
            it.wf(),
            it.bound() == n,
            n < 4 ==> it.pending() == None::<[usize; 4]>,
            n >= 4 ==> it.pending() == Some([0usize, 1, 2, 3]),
    {
        Combinations4 { n, cur: [0, 1, 2, 3], done: n < 4 }
    }

    /// Yields the pending combination and advances to its lexicographic successor.
    pub fn next(&mut self) -> (out: Option<[usize; 4]>)
        requires
            old(self).wf(),
        ensures
            final(self).wf(),
            final(self).bound() == old(self).bound(),
            out == old(self).pending(),
            out matches Some(c) ==> final(self).pending() == next_combo(c, old(self).bound()),
            out is None ==> final(self).pending() == None::<[usize; 4]>,
    {
        if self.done {
            return None;
        }
        let out = self.cur;
        let n = self.n;
        let c = self.cur;
        if c[3] < n - 1 {
            self.cur = [c[0], c[1], c[2], c[3] + 1];
        } else if c[2] < n - 2 {
            self.cur = [c[0], c[1], c[2] + 1, c[2] + 2];
        } else if c[1] < n - 3 {
            self.cur = [c[0], c[1] + 1, c[1] + 2, c[1] + 3];
        } else if c[0] < n - 4 {
            self.cur = [c[0] + 1, c[0] + 2, c[0] + 3, c[0] + 4];
        } else {
            self.done = true;
        }
        Some(out)
    }

    /// Drains the remaining combinations into a vector, in the order `next` yields them.
    pub fn collect_all(&mut self) -> (v: Vec<[usize; 4]>)
        requires
            old(self).wf(),
        ensures
            final(self).wf(),
            final(self).pending() == None::<[usize; 4]>,
            old(self).pending() is None ==> v@.len() == 0,
            old(self).pending() matches Some(c) ==> v@.len() > 0 && v@[0] == c,
            forall|i: int| 0 <= i < v@.len() ==> valid_combo(#[trigger] v@[i], old(self).bound()),
            forall|i: int| 0 <= i < v@.len() - 1 ==> next_combo(#[trigger] v@[i], old(self).bound()) == Some(v@[i + 1]),
            v@.len() > 0 ==> next_combo(v@[v@.len() - 1], old(self).bound()) is None,
    {
        let mut v: Vec<[usize; 4]> = Vec::new();
        let ghost start = old(self).pending();
        loop
            invariant
                self.wf(),
                self.bound() == old(self).bound(),
                start == old(self).pending(),
                v@.len() == 0 ==> self.pending() == start,
                v@.len() > 0 ==> (start matches Some(c) && v@[0] == c),
                v@.len() > 0 ==> next_combo(v@[v@.len() - 1], self.bound()) == self.pending(),
                forall|i: int| 0 <= i < v@.len() ==> valid_combo(#[trigger] v@[i], self.bound()),
                forall|i: int| 0 <= i < v@.len() - 1 ==> next_combo(#[trigger] v@[i], self.bound()) == Some(v@[i + 1]),
            ensures
                self.wf(),
                self.bound() == old(self).bound(),
                self.pending() == None::<[usize; 4]>,
                v@.len() == 0 ==> start is None,
                v@.len() > 0 ==> (start matches Some(c) && v@[0] == c),
                v@.len() > 0 ==> next_combo(v@[v@.len() - 1], self.bound()) is None,
                forall|i: int| 0 <= i < v@.len() ==> valid_combo(#[trigger] v@[i], self.bound()),
                forall|i: int| 0 <= i < v@.len() - 1 ==> next_combo(#[trigger] v@[i], self.bound()) == Some(v@[i + 1]),
            decreases
                (if self.done { 0int } else { 1int }),
                self.n - self.cur[0],
                self.n - self.cur[1],
                self.n - self.cur[2],
                self.n - self.cur[3],
        {
            match self.next() {
                Some(c) => {
                    v.push(c);
                },
                None => {
                    break;
                },
            }
        }
        v
    }
}

/// All 4-element combinations of `[0, n)`, lazily, in lexicographic order.
pub fn combinations_4(n: usize) -> (it: Combinations4)
    ensures
        it.wf(),
        it.bound() == n,
        n < 4 ==> it.pending() == None::<[usize; 4]>,
        n >= 4 ==> it.pending() == Some([0usize, 1, 2, 3]),
{
    Combinations4::new(n)
}


/// Lexicographic enumeration law: for a valid combination `c`, `next_combo`
/// yields the least valid combination that is lexicographically greater than
/// `c`, and yields nothing exactly when no valid combination follows `c`.
/// Together with `first_combo_is_least`, the sequence produced by
/// `Combinations4` is every 4-combination of `[0, n)` exactly once, in
/// lexicographic order.
pub proof fn next_combo_is_lex_successor(c: [usize; 4], n: usize)
    requires
        valid_combo(c, n as nat),
    ensures
        next_combo(c, n as nat) matches Some(d) ==> {
            &&& valid_combo(d, n as nat)
            &&& lex_lt(c, d)
            &&& forall|e: [usize; 4]| valid_combo(e, n as nat) && lex_lt(c, e) ==> #[trigger] lex_lt(e, d) == false
        },
        next_combo(c, n as nat) is None ==> forall|e: [usize; 4]|
            valid_combo(e, n as nat) ==> #[trigger] lex_lt(c, e) == false,
{
    if c[3] + 1 < n {
        let d = [c[0], c[1], c[2], (c[3] + 1) as usize];
        assert(d[0] == c[0] && d[1] == c[1] && d[2] == c[2] && d[3] == c[3] + 1);
        assert(next_combo(c, n as nat) == Some(d));
    } else if c[2] + 2 < n {
        let d = [c[0], c[1], (c[2] + 1) as usize, (c[2] + 2) as usize];
        assert(d[0] == c[0] && d[1] == c[1] && d[2] == c[2] + 1 && d[3] == c[2] + 2);
        assert(next_combo(c, n as nat) == Some(d));
    } else if c[1] + 3 < n {
        let d = [c[0], (c[1] + 1) as usize, (c[1] + 2) as usize, (c[1] + 3) as usize];
        assert(d[0] == c[0] && d[1] == c[1] + 1 && d[2] == c[1] + 2 && d[3] == c[1] + 3);
        assert(next_combo(c, n as nat) == Some(d));
    } else if c[0] + 4 < n {
        let d = [(c[0] + 1) as usize, (c[0] + 2) as usize, (c[0] + 3) as usize, (c[0] + 4) as usize];
        assert(d[0] == c[0] + 1 && d[1] == c[0] + 2 && d[2] == c[0] + 3 && d[3] == c[0] + 4);
        assert(next_combo(c, n as nat) == Some(d));
    }
}

/// `[0, 1, 2, 3]` is the least valid 4-combination of `[0, n)` when `n >= 4`,
/// and there is none when `n < 4`.
pub proof fn first_combo_is_least(n: nat)
    ensures
        n >= 4 ==> valid_combo([0usize, 1, 2, 3], n),
        n >= 4 ==> forall|e: [usize; 4]| #[trigger] valid_combo(e, n) ==> !lex_lt(e, [0usize, 1, 2, 3]),
        n < 4 ==> forall|e: [usize; 4]| #[trigger] valid_combo(e, n) == false,
{
}


proof fn lemma_lex_total(a: [usize; 4], b: [usize; 4])
    ensures
        a == b || lex_lt(a, b) || lex_lt(b, a),
        !(lex_lt(a, b) && lex_lt(b, a)),
        !lex_lt(a, a),
{
    if a[0] == b[0] && a[1] == b[1] && a[2] == b[2] && a[3] == b[3] {
        assert(a =~= b);
    }
}

proof fn lemma_lex_trans(a: [usize; 4], b: [usize; 4], c: [usize; 4])
    requires
        lex_lt(a, b),
        lex_lt(b, c),
    ensures
        lex_lt(a, c),
{
}

/// What draining a fresh enumeration of `[0, n)` yields: nothing when
/// `n < 4`; else valid combinations from `[0, 1, 2, 3]`, each followed by
/// its successor, the last having none (as `collect_all` states).
pub open spec fn drained_from_start(v: Seq<[usize; 4]>, n: usize) -> bool {
    &&& n < 4 ==> v.len() == 0
    &&& n >= 4 ==> v.len() > 0 && v[0] == [0usize, 1, 2, 3]
    &&& forall|i: int| 0 <= i < v.len() ==> valid_combo(#[trigger] v[i], n as nat)
    &&& forall|i: int| 0 <= i < v.len() - 1 ==> next_combo(#[trigger] v[i], n as nat) == Some(v[i + 1])
    &&& v.len() > 0 ==> next_combo(v[v.len() - 1], n as nat) is None
}

/// Draining a fresh `combinations_4(n)` yields every 4-combination of
/// `[0, n)`, each once, in strictly increasing lexicographic order.
pub proof fn combinations_are_all_in_order(v: Seq<[usize; 4]>, n: usize)
    requires
        drained_from_start(v, n),
    ensures
        forall|i: int, j: int| 0 <= i < j < v.len() ==> lex_lt(#[trigger] v[i], #[trigger] v[j]),
        forall|c: [usize; 4]| #[trigger] valid_combo(c, n as nat) ==> v.contains(c),
{
    assert forall|i: int| 0 <= i < v.len() - 1 implies lex_lt(#[trigger] v[i], v[i + 1]) by {
        next_combo_is_lex_successor(v[i], n);
    }
    assert forall|i: int, j: int| 0 <= i < j < v.len() implies lex_lt(#[trigger] v[i], #[trigger] v[j]) by {
        lemma_chain_increasing(v, n, i, j);
    }
    assert forall|c: [usize; 4]| #[trigger] valid_combo(c, n as nat) implies v.contains(c) by {
        first_combo_is_least(n as nat);
        if !v.contains(c) {
            lemma_all_below(v, n, c, v.len() - 1);
            next_combo_is_lex_successor(v[v.len() - 1], n);
        }
    }
}

proof fn lemma_chain_increasing(v: Seq<[usize; 4]>, n: usize, i: int, j: int)
    requires
        forall|k: int| 0 <= k < v.len() - 1 ==> lex_lt(#[trigger] v[k], v[k + 1]),
        0 <= i < j < v.len(),
    ensures
        lex_lt(v[i], v[j]),
    decreases j - i,
{
    if j > i + 1 {
        lemma_chain_increasing(v, n, i, j - 1);
        assert(lex_lt(v[j - 1], v[j]));
        lemma_lex_trans(v[i], v[j - 1], v[j]);
    }
}

/// A valid combination missing from the drained sequence lies above each of
/// its first `i + 1` entries.
proof fn lemma_all_below(v: Seq<[usize; 4]>, n: usize, c: [usize; 4], i: int)
    requires
        drained_from_start(v, n),
        valid_combo(c, n as nat),
        !v.contains(c),
        0 <= i < v.len(),
    ensures
        lex_lt(v[i], c),
    decreases i,
{
    if i == 0 {
        first_combo_is_least(n as nat);
        lemma_lex_total(v[0], c);
    } else {
        lemma_all_below(v, n, c, i - 1);
        next_combo_is_lex_successor(v[i - 1], n);
        assert(next_combo(v[i - 1], n as nat) == Some(v[i]));
        assert(!lex_lt(c, v[i]));
        assert(v[i] != c);
        lemma_lex_total(v[i], c);
    }
}

// ---------------------------------------------------------------------------
// Pattern-key tolerance band
// ---------------------------------------------------------------------------

/// Per-dimension key ranges `[lo, hi]` around an image pattern key: each
/// coordinate `±band`, clamped to `[0, p_bins]`.
pub open spec fn key_ranges_spec(key: [u32; 5], band: int, p_bins: int) -> [[u32; 2]; 5] {
    [
        [max0(key[0] - band) as u32, min_int(key[0] + band, p_bins) as u32],
        [max0(key[1] - band) as u32, min_int(key[1] + band, p_bins) as u32],
        [max0(key[2] - band) as u32, min_int(key[2] + band, p_bins) as u32],
        [max0(key[3] - band) as u32, min_int(key[3] + band, p_bins) as u32],
        [max0(key[4] - band) as u32, min_int(key[4] + band, p_bins) as u32],
    ]
}

pub open spec fn max0(v: int) -> int {
    if v < 0 { 0 } else { v }
}

pub open spec fn min_int(a: int, b: int) -> int {
    if a < b { a } else { b }
}

/// The tolerance band around an image pattern key: each of its five
/// coordinates widened by `band` bins on either side and clamped to
/// `[0, p_bins]`.
pub fn candidate_key_ranges(key: [u32; 5], band: i32, p_bins: u32) -> (r: [[u32; 2]; 5])
    requires
        0 <= band,
        p_bins <= i32::MAX,
        forall|i: int| 0 <= i < 5 ==> key[i] + band <= i32::MAX,
    ensures
        r == key_ranges_spec(key, band as int, p_bins as int),
        forall|i: int| 0 <= i < 5 ==> {
            &&& (#[trigger] r[i])[0] == (if key[i] >= band { key[i] - band } else { 0 })
            &&& r[i][1] == (if key[i] + band <= p_bins { key[i] + band } else { p_bins as int })
        },
{
    proof {
        key_box_is_the_tolerance_band(key, band as int, p_bins as int);
    }
    let b = band as i64;
    let top = p_bins as i64;
    let c0 = key[0] as i64;
    let c1 = key[1] as i64;
    let c2 = key[2] as i64;
    let c3 = key[3] as i64;
    let c4 = key[4] as i64;
    let r = [
        [clamp_lo(c0 - b), clamp_hi(c0 + b, top)],
        [clamp_lo(c1 - b), clamp_hi(c1 + b, top)],
        [clamp_lo(c2 - b), clamp_hi(c2 + b, top)],
        [clamp_lo(c3 - b), clamp_hi(c3 + b, top)],
        [clamp_lo(c4 - b), clamp_hi(c4 + b, top)],
    ];
    r
}

fn clamp_lo(v: i64) -> (r: u32)
    requires
        v <= u32::MAX,
    ensures
        r == max0(v as int),
{
    if v < 0 { 0 } else { v as u32 }
}

fn clamp_hi(v: i64, top: i64) -> (r: u32)
    requires
        0 <= v,
        0 <= top <= u32::MAX,
    ensures
        r == min_int(v as int, top as int) as u32,
{
    if v < top { v as u32 } else { top as u32 }
}


/// `k` lies in the box of key ranges `r`.
pub open spec fn key_in_box(k: [u32; 5], r: [[u32; 2]; 5]) -> bool {
    &&& r[0][0] <= k[0] <= r[0][1]
    &&& r[1][0] <= k[1] <= r[1][1]
    &&& r[2][0] <= k[2] <= r[2][1]
    &&& r[3][0] <= k[3] <= r[3][1]
    &&& r[4][0] <= k[4] <= r[4][1]
}

/// Strict lexicographic order on 5-tuples.
pub open spec fn key_lex_lt(a: [u32; 5], b: [u32; 5]) -> bool {
    ||| a[0] < b[0]
    ||| (a[0] == b[0] && a[1] < b[1])
    ||| (a[0] == b[0] && a[1] == b[1] && a[2] < b[2])
    ||| (a[0] == b[0] && a[1] == b[1] && a[2] == b[2] && a[3] < b[3])
    ||| (a[0] == b[0] && a[1] == b[1] && a[2] == b[2] && a[3] == b[3] && a[4] < b[4])
}

/// Squared Euclidean distance between two keys, in bins.
pub open spec fn key_dist(a: [u32; 5], c: [u32; 5]) -> int {
    (a[0] - c[0]) * (a[0] - c[0]) + (a[1] - c[1]) * (a[1] - c[1]) + (a[2] - c[2]) * (a[2] - c[2])
        + (a[3] - c[3]) * (a[3] - c[3]) + (a[4] - c[4]) * (a[4] - c[4])
}

/// Nearest-first order around `c`, ties broken lexicographically.
pub open spec fn nearer(a: [u32; 5], b: [u32; 5], c: [u32; 5]) -> bool {
    key_dist(a, c) < key_dist(b, c) || (key_dist(a, c) == key_dist(b, c) && key_lex_lt(a, b))
}

/// The lexicographic successor of `k` inside the box, if any.
pub open spec fn key_succ(k: [u32; 5], r: [[u32; 2]; 5]) -> Option<[u32; 5]> {
    if k[4] < r[4][1] {
        Some([k[0], k[1], k[2], k[3], (k[4] + 1) as u32])
    } else if k[3] < r[3][1] {
        Some([k[0], k[1], k[2], (k[3] + 1) as u32, r[4][0]])
    } else if k[2] < r[2][1] {
        Some([k[0], k[1], (k[2] + 1) as u32, r[3][0], r[4][0]])
    } else if k[1] < r[1][1] {
        Some([k[0], (k[1] + 1) as u32, r[2][0], r[3][0], r[4][0]])
    } else if k[0] < r[0][1] {
        Some([(k[0] + 1) as u32, r[1][0], r[2][0], r[3][0], r[4][0]])
    } else {
        None
    }
}

/// `key_succ` steps to the least box key lexicographically above `k`, and
/// yields nothing when no box key lies above `k`.
pub proof fn key_succ_is_lex_successor(k: [u32; 5], r: [[u32; 2]; 5])
    requires
        key_in_box(k, r),
    ensures
        key_succ(k, r) matches Some(s) ==> {
            &&& key_in_box(s, r)
            &&& key_lex_lt(k, s)
            &&& forall|e: [u32; 5]| key_in_box(e, r) && key_lex_lt(k, e) ==> !#[trigger] key_lex_lt(e, s)
        },
        key_succ(k, r) is None ==> forall|e: [u32; 5]| key_in_box(e, r) ==> !#[trigger] key_lex_lt(k, e),
{
    if k[4] < r[4][1] {
        let s = [k[0], k[1], k[2], k[3], (k[4] + 1) as u32];
        assert(s[0] == k[0] && s[1] == k[1] && s[2] == k[2] && s[3] == k[3] && s[4] == k[4] + 1);
    } else if k[3] < r[3][1] {
        let s = [k[0], k[1], k[2], (k[3] + 1) as u32, r[4][0]];
        assert(s[0] == k[0] && s[1] == k[1] && s[2] == k[2] && s[3] == k[3] + 1 && s[4] == r[4][0]);
    } else if k[2] < r[2][1] {
        let s = [k[0], k[1], (k[2] + 1) as u32, r[3][0], r[4][0]];
        assert(s[0] == k[0] && s[1] == k[1] && s[2] == k[2] + 1 && s[3] == r[3][0] && s[4] == r[4][0]);
    } else if k[1] < r[1][1] {
        let s = [k[0], (k[1] + 1) as u32, r[2][0], r[3][0], r[4][0]];
        assert(s[0] == k[0] && s[1] == k[1] + 1 && s[2] == r[2][0] && s[3] == r[3][0] && s[4] == r[4][0]);
    } else if k[0] < r[0][1] {
        let s = [(k[0] + 1) as u32, r[1][0], r[2][0], r[3][0], r[4][0]];
        assert(s[0] == k[0] + 1 && s[1] == r[1][0] && s[2] == r[2][0] && s[3] == r[3][0] && s[4] == r[4][0]);
    }
}


/// Every key of the box lies within `2^30` bins of `center` in each coordinate.
pub open spec fn box_near_center(center: [u32; 5], r: [[u32; 2]; 5]) -> bool {
    forall|i: int| 0 <= i < 5 ==> r[i][1] - center[i] <= 0x4000_0000 && center[i] - r[i][0] <= 0x4000_0000
}

fn square_diff(a: u32, c: u32) -> (sq: i64)
    requires
        -0x4000_0000 <= a - c <= 0x4000_0000,
    ensures
        sq == (a - c) * (a - c),
        0 <= sq <= 0x1000_0000_0000_0000int,
{
    let d = a as i64 - c as i64;
    assert(d * d <= 0x4000_0000 * 0x4000_0000) by (nonlinear_arith)
        requires
            -0x4000_0000 <= d <= 0x4000_0000,
    ;
    assert(d * d >= 0) by (nonlinear_arith);
    d * d
}

fn dist_to(k: [u32; 5], c: [u32; 5]) -> (d: i64)
    requires
        forall|i: int| 0 <= i < 5 ==> -0x4000_0000 <= #[trigger] k[i] - c[i] <= 0x4000_0000,
    ensures
        d == key_dist(k, c),
{
    let d0 = square_diff(k[0], c[0]);
    let d1 = square_diff(k[1], c[1]);
    let d2 = square_diff(k[2], c[2]);
    let d3 = square_diff(k[3], c[3]);
    let d4 = square_diff(k[4], c[4]);
    d0 + d1 + d2 + d3 + d4
}

fn is_nearer(a: [u32; 5], da: i64, b: [u32; 5], db: i64, Ghost(c): Ghost<[u32; 5]>) -> (r: bool)
    requires
        da == key_dist(a, c),
        db == key_dist(b, c),
    ensures
        r == nearer(a, b, c),
{
    if da != db {
        return da < db;
    }
    if a[0] != b[0] {
        return a[0] < b[0];
    }
    if a[1] != b[1] {
        return a[1] < b[1];
    }
    if a[2] != b[2] {
        return a[2] < b[2];
    }
    if a[3] != b[3] {
        return a[3] < b[3];
    }
    a[4] < b[4]
}

/// Entries of `out` are box keys with their distance, strictly nearest-first.
pub open spec fn keys_sorted(out: Seq<([u32; 5], i64)>, center: [u32; 5], r: [[u32; 2]; 5]) -> bool {
    &&& forall|j: int| 0 <= j < out.len() ==> key_in_box((#[trigger] out[j]).0, r) && out[j].1 == key_dist(out[j].0, center)
    &&& forall|i: int, j: int| 0 <= i < j < out.len() ==> nearer((#[trigger] out[i]).0, (#[trigger] out[j]).0, center)
}

/// Distinct keys are ordered one way or the other.
proof fn lemma_nearer_total(a: [u32; 5], b: [u32; 5], c: [u32; 5])
    requires
        a != b,
    ensures
        nearer(a, b, c) || nearer(b, a, c),
{
    if a[0] == b[0] && a[1] == b[1] && a[2] == b[2] && a[3] == b[3] && a[4] == b[4] {
        assert(a =~= b);
    }
}

/// Inserts a new box key at its nearest-first place.
fn insert_nearest(out: &mut Vec<([u32; 5], i64)>, x: [u32; 5], dx: i64, Ghost(center): Ghost<[u32; 5]>, Ghost(r): Ghost<[[u32; 2]; 5]>)
    requires
        keys_sorted(old(out)@, center, r),
        key_in_box(x, r),
        dx == key_dist(x, center),
        forall|j: int| 0 <= j < old(out)@.len() ==> (#[trigger] old(out)@[j]).0 != x,
    ensures
        keys_sorted(final(out)@, center, r),
        final(out)@.len() == old(out)@.len() + 1,
        exists|j: int| 0 <= j < final(out)@.len() && (#[trigger] final(out)@[j]).0 == x,
        forall|j: int| 0 <= j < old(out)@.len() ==> final(out)@.contains(#[trigger] old(out)@[j]),
        forall|j: int| 0 <= j < final(out)@.len() ==> (#[trigger] final(out)@[j]).0 == x || old(out)@.contains(final(out)@[j]),
{
    let ghost before = out@;
    let mut p: usize = 0;
    while p < out.len() && is_nearer(out[p].0, out[p].1, x, dx, Ghost(center))
        invariant
            out@ == before,
            keys_sorted(before, center, r),
            dx == key_dist(x, center),
            p <= before.len(),
            forall|j: int| 0 <= j < p ==> nearer((#[trigger] before[j]).0, x, center),
        decreases before.len() - p,
    {
        p += 1;
    }
    if p < out.len() {
        assert(before[p as int].0 != x);
        assert(!nearer(before[p as int].0, x, center));
        proof {
            lemma_nearer_total(x, before[p as int].0, center);
        }
        assert(nearer(x, before[p as int].0, center));
    }
    out.insert(p, (x, dx));
    let ghost after = out@;
    assert(after == before.subrange(0, p as int).push((x, dx)) + before.subrange(p as int, before.len() as int));
    assert forall|j: int| 0 <= j < after.len() implies key_in_box((#[trigger] after[j]).0, r) && after[j].1 == key_dist(after[j].0, center) by {
        if j < p {
            assert(after[j] == before[j]);
        } else if j > p {
            assert(after[j] == before[j - 1]);
        }
    }
    assert forall|i: int, j: int| 0 <= i < j < after.len() implies nearer((#[trigger] after[i]).0, (#[trigger] after[j]).0, center) by {
        if j < p {
            assert(after[i] == before[i] && after[j] == before[j]);
        } else if j == p {
            assert(after[i] == before[i]);
        } else if i < p {
            assert(after[i] == before[i] && after[j] == before[j - 1]);
            assert(nearer(before[i].0, x, center));
            assert(nearer(x, before[p as int].0, center) || j - 1 == p);
            if j - 1 > p {
                assert(nearer(before[p as int].0, before[j - 1].0, center));
            }
        } else if i == p {
            assert(after[j] == before[j - 1]);
            if j - 1 > p {
                assert(nearer(before[p as int].0, before[j - 1].0, center));
            }
        } else {
            assert(after[i] == before[i - 1] && after[j] == before[j - 1]);
        }
    }
    assert(after[p as int].0 == x);
    assert forall|j: int| 0 <= j < before.len() implies after.contains(#[trigger] before[j]) by {
        if j < p {
            assert(after[j] == before[j]);
        } else {
            assert(after[j + 1] == before[j]);
        }
    }
    assert forall|j: int| 0 <= j < after.len() implies (#[trigger] after[j]).0 == x || before.contains(after[j]) by {
        if j < p {
            assert(after[j] == before[j]);
        } else if j > p {
            assert(after[j] == before[j - 1]);
        }
    }
}


fn next_key(k: [u32; 5], r: [[u32; 2]; 5]) -> (s: Option<[u32; 5]>)
    requires
        key_in_box(k, r),
    ensures
        s == key_succ(k, r),
{
    if k[4] < r[4][1] {
        Some([k[0], k[1], k[2], k[3], k[4] + 1])
    } else if k[3] < r[3][1] {
        Some([k[0], k[1], k[2], k[3] + 1, r[4][0]])
    } else if k[2] < r[2][1] {
        Some([k[0], k[1], k[2] + 1, r[3][0], r[4][0]])
    } else if k[1] < r[1][1] {
        Some([k[0], k[1] + 1, r[2][0], r[3][0], r[4][0]])
    } else if k[0] < r[0][1] {
        Some([k[0] + 1, r[1][0], r[2][0], r[3][0], r[4][0]])
    } else {
        None
    }
}

/// Every key in the tolerance box around `center`, with its squared
/// distance from `center`, nearest first and, at equal distance, in
/// lexicographic order.
pub fn candidate_keys(center: [u32; 5], ranges: [[u32; 2]; 5]) -> (keys: Vec<([u32; 5], i64)>)
    requires
        box_near_center(center, ranges),
    ensures
        keys_sorted(keys@, center, ranges),
        forall|e: [u32; 5]| #[trigger] key_in_box(e, ranges) ==> exists|j: int|
            0 <= j < keys@.len() && (#[trigger] keys@[j]).0 == e,
{
    let mut out: Vec<([u32; 5], i64)> = Vec::new();
    if ranges[0][0] > ranges[0][1] || ranges[1][0] > ranges[1][1] || ranges[2][0] > ranges[2][1]
        || ranges[3][0] > ranges[3][1] || ranges[4][0] > ranges[4][1] {
        return out;
    }
    let mut cur: [u32; 5] = [ranges[0][0], ranges[1][0], ranges[2][0], ranges[3][0], ranges[4][0]];
    let mut done = false;
    while !done
        invariant
            box_near_center(center, ranges),
            key_in_box(cur, ranges),
            keys_sorted(out@, center, ranges),
            !done ==> forall|j: int| 0 <= j < out@.len() ==> key_lex_lt((#[trigger] out@[j]).0, cur),
            !done ==> forall|e: [u32; 5]| #[trigger] key_in_box(e, ranges) && key_lex_lt(e, cur) ==> exists|j: int|
                0 <= j < out@.len() && (#[trigger] out@[j]).0 == e,
            done ==> forall|e: [u32; 5]| #[trigger] key_in_box(e, ranges) ==> exists|j: int|
                0 <= j < out@.len() && (#[trigger] out@[j]).0 == e,
        decreases
            (if done { 0int } else { 1int }),
            ranges[0][1] - cur[0],
            ranges[1][1] - cur[1],
            ranges[2][1] - cur[2],
            ranges[3][1] - cur[3],
            ranges[4][1] - cur[4],
    {
        let ghost before = out@;
        let d = dist_to(cur, center);
        assert forall|j: int| 0 <= j < before.len() implies (#[trigger] before[j]).0 != cur by {
            assert(key_lex_lt(before[j].0, cur));
        }
        insert_nearest(&mut out, cur, d, Ghost(center), Ghost(ranges));
        proof {
            key_succ_is_lex_successor(cur, ranges);
        }
        let ghost at = cur;
        match next_key(cur, ranges) {
            Some(n) => {
                assert forall|j: int| 0 <= j < out@.len() implies key_lex_lt((#[trigger] out@[j]).0, n) by {
                    if out@[j].0 != at {
                        assert(before.contains(out@[j]));
                        let w = choose|w: int| 0 <= w < before.len() && before[w] == out@[j];
                        assert(key_lex_lt(before[w].0, at));
                    }
                }
                assert forall|e: [u32; 5]| #[trigger] key_in_box(e, ranges) && key_lex_lt(e, n) implies exists|j: int|
                    0 <= j < out@.len() && (#[trigger] out@[j]).0 == e by {
                    if e != at {
                        if !key_lex_lt(e, at) {
                            if e[0] == at[0] && e[1] == at[1] && e[2] == at[2] && e[3] == at[3] && e[4] == at[4] {
                                assert(e =~= at);
                            }
                            assert(false);
                        }
                        let w = choose|w: int| 0 <= w < before.len() && (#[trigger] before[w]).0 == e;
                        assert(out@.contains(before[w]));
                    }
                }
                cur = n;
            },
            None => {
                assert forall|e: [u32; 5]| #[trigger] key_in_box(e, ranges) implies exists|j: int|
                    0 <= j < out@.len() && (#[trigger] out@[j]).0 == e by {
                    if e != at {
                        if !key_lex_lt(e, at) {
                            if e[0] == at[0] && e[1] == at[1] && e[2] == at[2] && e[3] == at[3] && e[4] == at[4] {
                                assert(e =~= at);
                            }
                            assert(key_lex_lt(at, e));
                        }
                        let w = choose|w: int| 0 <= w < before.len() && (#[trigger] before[w]).0 == e;
                        assert(out@.contains(before[w]));
                    }
                }
                done = true;
            },
        }
    }
    out
}

proof fn lemma_square_zero(d: int)
    ensures
        d * d >= 0,
        d * d == 0 ==> d == 0,
{
    assert(d * d >= 0) by (nonlinear_arith);
    assert(d * d == 0 ==> d == 0) by (nonlinear_arith);
}

proof fn lemma_key_dist_zero(a: [u32; 5], c: [u32; 5])
    ensures
        key_dist(a, c) >= 0,
        key_dist(a, c) == 0 ==> a =~= c,
{
    lemma_square_zero(a[0] - c[0]);
    lemma_square_zero(a[1] - c[1]);
    lemma_square_zero(a[2] - c[2]);
    lemma_square_zero(a[3] - c[3]);
    lemma_square_zero(a[4] - c[4]);
}

/// When the image key lies in its own tolerance box, the nearest-first
/// enumeration of the box starts with the image key itself, at distance 0.
pub proof fn image_key_is_tried_first(keys: Seq<([u32; 5], i64)>, center: [u32; 5], ranges: [[u32; 2]; 5])
    requires
        key_in_box(center, ranges),
        keys_sorted(keys, center, ranges),
        forall|e: [u32; 5]| #[trigger] key_in_box(e, ranges) ==> exists|j: int|
            0 <= j < keys.len() && (#[trigger] keys[j]).0 == e,
    ensures
        keys.len() > 0,
        keys[0] == (center, 0i64),
{
    let j = choose|j: int| 0 <= j < keys.len() && (#[trigger] keys[j]).0 == center;
    lemma_key_dist_zero(center, center);
    lemma_key_dist_zero(keys[0].0, center);
    if j > 0 {
        assert(nearer(keys[0].0, keys[j].0, center));
        assert(keys[0].0 =~= center);
        assert(false);
    }
}

/// A nearest-first list of box keys names each key once.
pub proof fn sorted_keys_are_distinct(keys: Seq<([u32; 5], i64)>, center: [u32; 5], ranges: [[u32; 2]; 5])
    requires
        keys_sorted(keys, center, ranges),
    ensures
        forall|i: int, j: int| 0 <= i < j < keys.len() ==> (#[trigger] keys[i]).0 != (#[trigger] keys[j]).0,
{
    assert forall|i: int, j: int| 0 <= i < j < keys.len() implies (#[trigger] keys[i]).0 != (#[trigger] keys[j]).0 by {
        assert(nearer(keys[i].0, keys[j].0, center));
    }
}

/// The status a solve ends with before any search: too few centroids to
/// form a 4-star pattern.
pub fn too_few_status(num_centroids: usize) -> (s: Option<SolveStatus>)
    ensures
        s == (if num_centroids < 4 { Some(SolveStatus::TooFew) } else { None::<SolveStatus> }),
{
    if num_centroids < 4 { Some(SolveStatus::TooFew) } else { None }
}

/// The tolerance box around `key` is the band of `band` bins on either side
/// of each coordinate, clamped to `[0, p_bins]`: a key lies in it exactly
/// when each coordinate is within `band` of the image key and at most
/// `p_bins`.
pub proof fn key_box_is_the_tolerance_band(key: [u32; 5], band: int, p_bins: int)
    requires
        0 <= band,
        0 <= p_bins <= i32::MAX,
        forall|i: int| 0 <= i < 5 ==> key[i] + band <= i32::MAX,
    ensures
        forall|i: int| 0 <= i < 5 ==> {
            &&& (#[trigger] key_ranges_spec(key, band, p_bins)[i])[0]
                == (if key[i] >= band { key[i] - band } else { 0 })
            &&& key_ranges_spec(key, band, p_bins)[i][1]
                == (if key[i] + band <= p_bins { key[i] + band } else { p_bins })
        },
        forall|k: [u32; 5]| #[trigger] key_in_box(k, key_ranges_spec(key, band, p_bins)) <==> (
            forall|i: int| 0 <= i < 5 ==> -band <= #[trigger] k[i] - key[i] <= band && k[i] <= p_bins),
{
    let r = key_ranges_spec(key, band, p_bins);
    assert(key[0] + band <= i32::MAX && key[1] + band <= i32::MAX && key[2] + band <= i32::MAX
        && key[3] + band <= i32::MAX && key[4] + band <= i32::MAX);
    assert forall|i: int| 0 <= i < 5 implies {
        &&& (#[trigger] r[i])[0] == (if key[i] >= band { key[i] - band } else { 0 })
        &&& r[i][1] == (if key[i] + band <= p_bins { key[i] + band } else { p_bins })
    } by {
        assert(key[i] + band <= i32::MAX);
    }
    assert forall|k: [u32; 5]| #[trigger] key_in_box(k, r) <==> (
        forall|i: int| 0 <= i < 5 ==> -band <= #[trigger] k[i] - key[i] <= band && k[i] <= p_bins) by {
        assert(r[0][0] == (if key[0] >= band { key[0] - band } else { 0 }));
        assert(r[1][0] == (if key[1] >= band { key[1] - band } else { 0 }));
        assert(r[2][0] == (if key[2] >= band { key[2] - band } else { 0 }));
        assert(r[3][0] == (if key[3] >= band { key[3] - band } else { 0 }));
        assert(r[4][0] == (if key[4] >= band { key[4] - band } else { 0 }));
        assert(r[0][1] == (if key[0] + band <= p_bins { key[0] + band } else { p_bins }));
        assert(r[1][1] == (if key[1] + band <= p_bins { key[1] + band } else { p_bins }));
        assert(r[2][1] == (if key[2] + band <= p_bins { key[2] + band } else { p_bins }));
        assert(r[3][1] == (if key[3] + band <= p_bins { key[3] + band } else { p_bins }));
        assert(r[4][1] == (if key[4] + band <= p_bins { key[4] + band } else { p_bins }));
        if forall|i: int| 0 <= i < 5 ==> -band <= #[trigger] k[i] - key[i] <= band && k[i] <= p_bins {
            assert(-band <= k[0] - key[0] <= band && k[0] <= p_bins);
            assert(-band <= k[1] - key[1] <= band && k[1] <= p_bins);
            assert(-band <= k[2] - key[2] <= band && k[2] <= p_bins);
            assert(-band <= k[3] - key[3] <= band && k[3] <= p_bins);
            assert(-band <= k[4] - key[4] <= band && k[4] <= p_bins);
        }
        if key_in_box(k, r) {
            assert forall|i: int| 0 <= i < 5 implies -band <= #[trigger] k[i] - key[i] <= band && k[i] <= p_bins by {
                if i == 0 {} else if i == 1 {} else if i == 2 {} else if i == 3 {} else {}
            }
        }
    }
}

} // verus!
