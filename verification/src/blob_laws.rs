//! What blob formation guarantees: the returned blobs partition the
//! candidates, every pair of candidates the row scan links ends in one blob,
//! and every blob is held together by such links.

use vstd::prelude::*;
use crate::blob::{
    CandidateFrom1D, MergeState, merge, absorb_from, process_row_from, process_rows_from,
    final_state, init_state, keep_nonempty, blob_members, row_prefix, row_of, state_bounded,
};

verus! {

// ---------------------------------------------------------------------------
// Links between candidates
// ---------------------------------------------------------------------------

/// Candidate `i` absorbs candidate `p`: `p` lies in the row above, at most 3
/// columns away, and no candidate of that row listed before `p` lies more than
/// 3 columns to the right of `i` (where the scan of that row stops).
pub open spec fn absorbs(c: Seq<CandidateFrom1D>, i: int, p: int) -> bool {
    &&& 0 <= i < c.len()
    &&& 0 <= p < c.len()
    &&& c[i].y >= 1
    &&& c[p].y == c[i].y - 1
    &&& c[i].x - 3 <= c[p].x <= c[i].x + 3
    &&& forall|q: int| 0 <= q < p && (#[trigger] c[q]).y == c[i].y - 1 ==> c[q].x <= c[i].x + 3
}

/// One of the two candidates absorbs the other.
pub open spec fn linked(c: Seq<CandidateFrom1D>, a: int, b: int) -> bool {
    absorbs(c, a, b) || absorbs(c, b, a)
}

/// A sequence of candidate indices in which consecutive entries are linked.
pub open spec fn is_chain(c: Seq<CandidateFrom1D>, path: Seq<int>) -> bool {
    &&& path.len() >= 1
    &&& forall|k: int| 0 <= k < path.len() ==> 0 <= #[trigger] path[k] < c.len()
    &&& forall|k: int| 0 <= k < path.len() - 1 ==> #[trigger] linked(c, path[k], path[k + 1])
}

/// Candidates `a` and `b` are joined by a chain of links.
pub open spec fn connected(c: Seq<CandidateFrom1D>, a: int, b: int) -> bool {
    exists|path: Seq<int>| is_chain(c, path) && path[0] == a && path.last() == b
}

proof fn lemma_connected_refl(c: Seq<CandidateFrom1D>, a: int)
    requires
        0 <= a < c.len(),
    ensures
        connected(c, a, a),
{
    let path = seq![a];
    assert(is_chain(c, path));
    assert(path[0] == a && path.last() == a);
}

proof fn lemma_linked_connected(c: Seq<CandidateFrom1D>, a: int, b: int)
    requires
        linked(c, a, b),
    ensures
        connected(c, a, b),
{
    let path = seq![a, b];
    assert(linked(c, path[0], path[1]));
    assert(is_chain(c, path));
    assert(path[0] == a && path.last() == b);
}

proof fn lemma_connected_sym(c: Seq<CandidateFrom1D>, a: int, b: int)
    requires
        connected(c, a, b),
    ensures
        connected(c, b, a),
{
    let path = choose|path: Seq<int>| is_chain(c, path) && path[0] == a && path.last() == b;
    let rev = Seq::new(path.len(), |k: int| path[path.len() - 1 - k]);
    assert forall|k: int| 0 <= k < rev.len() - 1 implies #[trigger] linked(c, rev[k], rev[k + 1]) by {
        let kk = path.len() - 2 - k;
        assert(linked(c, path[kk], path[kk + 1]));
    }
    assert(is_chain(c, rev));
    assert(rev[0] == b && rev.last() == a);
}

proof fn lemma_connected_trans(c: Seq<CandidateFrom1D>, a: int, b: int, d: int)
    requires
        connected(c, a, b),
        connected(c, b, d),
    ensures
        connected(c, a, d),
{
    let p1 = choose|path: Seq<int>| is_chain(c, path) && path[0] == a && path.last() == b;
    let p2 = choose|path: Seq<int>| is_chain(c, path) && path[0] == b && path.last() == d;
    let tail = p2.subrange(1, p2.len() as int);
    let joined = p1 + tail;
    assert forall|k: int| 0 <= k < joined.len() implies 0 <= #[trigger] joined[k] < c.len() by {
        if k >= p1.len() {
            assert(joined[k] == p2[k - p1.len() + 1]);
        }
    }
    assert forall|k: int| 0 <= k < joined.len() - 1 implies #[trigger] linked(c, joined[k], joined[k + 1]) by {
        if k < p1.len() - 1 {
            assert(linked(c, p1[k], p1[k + 1]));
        } else if k == p1.len() - 1 {
            assert(joined[k] == b);
            assert(joined[k + 1] == p2[1]);
            assert(linked(c, p2[0], p2[1]));
        } else {
            let kk = k - p1.len() + 1;
            assert(joined[k] == p2[kk]);
            assert(joined[k + 1] == p2[kk + 1]);
            assert(linked(c, p2[kk], p2[kk + 1]));
        }
    }
    assert(is_chain(c, joined));
    if tail.len() == 0 {
        assert(joined.last() == b);
        assert(p2.len() == 1);
    } else {
        assert(joined.last() == p2.last());
    }
}

// ---------------------------------------------------------------------------
// Rows
// ---------------------------------------------------------------------------

proof fn lemma_row_prefix_facts(c: Seq<CandidateFrom1D>, r: int, k: nat)
    requires
        k <= c.len(),
        c.len() <= usize::MAX,
    ensures
        forall|j: int| 0 <= j < row_prefix(c, r, k).len() ==> (#[trigger] row_prefix(c, r, k)[j]) < k
            && c[row_prefix(c, r, k)[j] as int].y == r,
        forall|j1: int, j2: int| 0 <= j1 < j2 < row_prefix(c, r, k).len()
            ==> #[trigger] row_prefix(c, r, k)[j1] < #[trigger] row_prefix(c, r, k)[j2],
        forall|q: int| 0 <= q < k && (#[trigger] c[q]).y == r ==> row_prefix(c, r, k).contains(q as usize),
    decreases k,
{
    if k > 0 {
        lemma_row_prefix_facts(c, r, (k - 1) as nat);
        let before = row_prefix(c, r, (k - 1) as nat);
        let now = row_prefix(c, r, k);
        assert forall|j: int| 0 <= j < now.len() implies (#[trigger] now[j]) < k && c[now[j] as int].y == r by {
            if j < before.len() {
                assert(now[j] == before[j]);
            } else {
                assert(c[k - 1].y == r);
                assert(now == before.push((k - 1) as usize));
                assert(now[j] == (k - 1) as usize);
            }
        }
        assert forall|j1: int, j2: int| 0 <= j1 < j2 < now.len() implies #[trigger] now[j1] < #[trigger] now[j2] by {
            assert(now[j1] == before[j1]);
            if j2 < before.len() {
                assert(now[j2] == before[j2]);
            } else {
                assert(now == before.push((k - 1) as usize));
                assert(now[j2] == (k - 1) as usize);
            }
        }
        assert forall|q: int| 0 <= q < k && (#[trigger] c[q]).y == r implies now.contains(q as usize) by {
            if q < k - 1 {
                let w = choose|w: int| 0 <= w < before.len() && before[w] == q as usize;
                assert(now[w] == q as usize);
            } else {
                assert(now[now.len() - 1] == q as usize);
            }
        }
    }
}

/// The row list holds exactly the candidates of that row, in increasing index order.
proof fn lemma_row_of_facts(c: Seq<CandidateFrom1D>, r: int)
    requires
        c.len() <= usize::MAX,
    ensures
        forall|j: int| 0 <= j < row_of(c, r).len() ==> (#[trigger] row_of(c, r)[j]) < c.len()
            && c[row_of(c, r)[j] as int].y == r,
        forall|j1: int, j2: int| 0 <= j1 < j2 < row_of(c, r).len()
            ==> #[trigger] row_of(c, r)[j1] < #[trigger] row_of(c, r)[j2],
        forall|q: int| 0 <= q < c.len() && (#[trigger] c[q]).y == r ==> row_of(c, r).contains(q as usize),
{
    lemma_row_prefix_facts(c, r, c.len());
}

// ---------------------------------------------------------------------------
// Invariants of the merge process
// ---------------------------------------------------------------------------

/// Each candidate sits in exactly the list of its owner, once.
pub open spec fn partitioned(st: MergeState, n: nat) -> bool {
    &&& state_bounded(st, n)
    &&& forall|m: int| 0 <= m < n ==> st.lists[(#[trigger] st.owner[m]) as int].contains(m as usize)
    &&& forall|b: int, j: int|
        0 <= b < n && 0 <= j < st.lists[b].len() ==> st.owner[(#[trigger] st.lists[b][j]) as int] == b
    &&& forall|b: int| 0 <= b < n ==> (#[trigger] st.lists[b]).no_duplicates()
}

/// Candidates with the same owner are connected.
pub open spec fn owners_connected(c: Seq<CandidateFrom1D>, st: MergeState) -> bool {
    forall|a: int, b: int|
        #![trigger st.owner[a], st.owner[b]]
        0 <= a < c.len() && 0 <= b < c.len() && st.owner[a] == st.owner[b] ==> connected(c, a, b)
}

/// Owners that agree in `st` still agree in `st2`.
pub open spec fn refines(st: MergeState, st2: MergeState, n: nat) -> bool {
    forall|a: int, b: int|
        #![trigger st2.owner[a], st2.owner[b]]
        0 <= a < n && 0 <= b < n && st.owner[a] == st.owner[b] ==> st2.owner[a] == st2.owner[b]
}

proof fn lemma_init_inv(c: Seq<CandidateFrom1D>)
    requires
        c.len() <= usize::MAX,
    ensures
        partitioned(init_state(c.len()), c.len()),
        owners_connected(c, init_state(c.len())),
{
    let n = c.len();
    let st = init_state(n);
    assert forall|m: int| 0 <= m < n implies st.lists[(#[trigger] st.owner[m]) as int].contains(m as usize) by {
        assert(st.owner[m] == m as usize);
        assert(st.lists[m][0] == m as usize);
    }
    assert forall|b: int, j: int| 0 <= b < n && 0 <= j < st.lists[b].len() implies
        st.owner[(#[trigger] st.lists[b][j]) as int] == b by {
        assert(st.lists[b][j] == b as usize);
    }
    assert forall|b: int| 0 <= b < n implies (#[trigger] st.lists[b]).no_duplicates() by {
        assert(st.lists[b].len() == 1);
    }
    assert forall|a: int, b: int|
        #![trigger st.owner[a], st.owner[b]]
        0 <= a < n && 0 <= b < n && st.owner[a] == st.owner[b] implies connected(c, a, b) by {
        assert(st.owner[a] == a as usize && st.owner[b] == b as usize);
        lemma_connected_refl(c, a);
    }
}

proof fn lemma_merge_inv(c: Seq<CandidateFrom1D>, st: MergeState, i: usize, p: usize)
    requires
        c.len() <= usize::MAX,
        partitioned(st, c.len()),
        owners_connected(c, st),
        i < c.len(),
        p < c.len(),
        linked(c, i as int, p as int),
    ensures
        partitioned(merge(st, i, p), c.len()),
        owners_connected(c, merge(st, i, p)),
        refines(st, merge(st, i, p), c.len()),
        merge(st, i, p).owner[i as int] == merge(st, i, p).owner[p as int],
{
    let n = c.len();
    let r = st.owner[i as int];
    let b = st.owner[p as int];
    let st2 = merge(st, i, p);
    if b != r {
        // Ownership after the merge: the donor's candidates move to the recipient.
        assert forall|m: int| 0 <= m < n implies #[trigger] st2.owner[m] == (if st.owner[m] == b { r } else { st.owner[m] }) by {
            if st.lists[b as int].contains(m as usize) {
                let j = choose|j: int| 0 <= j < st.lists[b as int].len() && st.lists[b as int][j] == m as usize;
                assert(st.owner[st.lists[b as int][j] as int] == b);
            }
            if st.owner[m] == b {
                assert(st.lists[st.owner[m] as int].contains(m as usize));
            }
        }
        crate::blob::lemma_merge_bounded(st, n, i, p);
        assert forall|m: int| 0 <= m < n implies st2.lists[(#[trigger] st2.owner[m]) as int].contains(m as usize) by {
            let o = st.owner[m];
            assert(st.lists[o as int].contains(m as usize));
            let j = choose|j: int| 0 <= j < st.lists[o as int].len() && st.lists[o as int][j] == m as usize;
            if o == b {
                let lr = st.lists[r as int];
                assert(st2.lists[r as int] == lr + st.lists[b as int]);
                assert(st2.lists[r as int][lr.len() + j] == m as usize);
            } else if o == r {
                assert(st2.lists[r as int][j] == m as usize);
            } else {
                assert(st2.lists[o as int] == st.lists[o as int]);
            }
        }
        assert forall|bb: int, j: int| 0 <= bb < n && 0 <= j < st2.lists[bb].len() implies
            st2.owner[(#[trigger] st2.lists[bb][j]) as int] == bb by {
            if bb == r as int {
                let lr = st.lists[r as int];
                if j < lr.len() {
                    assert(st2.lists[bb][j] == lr[j]);
                    assert(st.owner[lr[j] as int] == r);
                } else {
                    assert(st2.lists[bb][j] == st.lists[b as int][j - lr.len()]);
                    assert(st.owner[st.lists[b as int][j - lr.len()] as int] == b);
                }
            } else {
                assert(bb != b as int);
                assert(st2.lists[bb] == st.lists[bb]);
                assert(st.owner[st.lists[bb][j] as int] == bb);
            }
        }
        assert forall|bb: int| 0 <= bb < n implies (#[trigger] st2.lists[bb]).no_duplicates() by {
            if bb == r as int {
                let lr = st.lists[r as int];
                let lb = st.lists[b as int];
                let both = lr + lb;
                assert(st2.lists[bb] == both);
                assert forall|j1: int, j2: int| 0 <= j1 < both.len() && 0 <= j2 < both.len() && j1 != j2 implies both[j1] != both[j2] by {
                    if j1 < lr.len() && j2 < lr.len() {
                        assert(lr.no_duplicates());
                    } else if j1 >= lr.len() && j2 >= lr.len() {
                        assert(lb.no_duplicates());
                        assert(both[j1] == lb[j1 - lr.len()]);
                        assert(both[j2] == lb[j2 - lr.len()]);
                    } else if j1 < lr.len() {
                        assert(st.owner[lr[j1] as int] == r);
                        assert(both[j2] == lb[j2 - lr.len()]);
                        assert(st.owner[lb[j2 - lr.len()] as int] == b);
                    } else {
                        assert(st.owner[lr[j2] as int] == r);
                        assert(both[j1] == lb[j1 - lr.len()]);
                        assert(st.owner[lb[j1 - lr.len()] as int] == b);
                    }
                }
            } else if bb == b as int {
                assert(st2.lists[bb].len() == 0);
            } else {
                assert(st2.lists[bb] == st.lists[bb]);
            }
        }
        assert forall|a: int, d: int|
            #![trigger st2.owner[a], st2.owner[d]]
            0 <= a < n && 0 <= d < n && st2.owner[a] == st2.owner[d] implies connected(c, a, d) by {
            assert(st2.owner[a] == (if st.owner[a] == b { r } else { st.owner[a] }));
            assert(st2.owner[d] == (if st.owner[d] == b { r } else { st.owner[d] }));
            assert(st.owner[i as int] == r);
            assert(st.owner[p as int] == b);
            lemma_linked_connected(c, i as int, p as int);
            if st.owner[a] == st.owner[d] {
            } else if st.owner[a] == b {
                // a ~ p, p ~ i, i ~ d
                assert(connected(c, a, p as int));
                assert(connected(c, i as int, d));
                lemma_connected_sym(c, i as int, p as int);
                lemma_connected_trans(c, a, p as int, i as int);
                lemma_connected_trans(c, a, i as int, d);
            } else {
                assert(st.owner[d] == b);
                assert(connected(c, d, p as int));
                assert(connected(c, i as int, a));
                lemma_connected_sym(c, i as int, p as int);
                lemma_connected_trans(c, d, p as int, i as int);
                lemma_connected_trans(c, d, i as int, a);
                lemma_connected_sym(c, d, a);
            }
        }
        assert forall|a: int, d: int|
            #![trigger st2.owner[a], st2.owner[d]]
            0 <= a < n && 0 <= d < n && st.owner[a] == st.owner[d] implies st2.owner[a] == st2.owner[d] by {
            assert(st2.owner[a] == (if st.owner[a] == b { r } else { st.owner[a] }));
            assert(st2.owner[d] == (if st.owner[d] == b { r } else { st.owner[d] }));
        }
        assert(st2.owner[i as int] == r);
        assert(st2.owner[p as int] == r);
    }
}


proof fn lemma_refines_refl(st: MergeState, n: nat)
    ensures
        refines(st, st, n),
{
}

proof fn lemma_refines_trans(s1: MergeState, s2: MergeState, s3: MergeState, n: nat)
    requires
        refines(s1, s2, n),
        refines(s2, s3, n),
    ensures
        refines(s1, s3, n),
{
    assert forall|a: int, b: int|
        #![trigger s3.owner[a], s3.owner[b]]
        0 <= a < n && 0 <= b < n && s1.owner[a] == s1.owner[b] implies s3.owner[a] == s3.owner[b] by {
        assert(s2.owner[a] == s2.owner[b]);
    }
}

/// Absorbing from the previous row keeps the invariants and joins `i` with
/// every candidate of that row it absorbs from position `k` on.
proof fn lemma_absorb(c: Seq<CandidateFrom1D>, st: MergeState, i: usize, prev: Seq<usize>, k: nat)
    requires
        c.len() <= usize::MAX,
        partitioned(st, c.len()),
        owners_connected(c, st),
        i < c.len(),
        c[i as int].y >= 1,
        prev == row_of(c, c[i as int].y - 1),
        k <= prev.len(),
        forall|j: int| 0 <= j < k ==> c[(#[trigger] prev[j]) as int].x <= c[i as int].x + 3,
    ensures
        partitioned(absorb_from(c, st, i, prev, k), c.len()),
        owners_connected(c, absorb_from(c, st, i, prev, k)),
        refines(st, absorb_from(c, st, i, prev, k), c.len()),
        forall|j: int| k <= j < prev.len() && absorbs(c, i as int, (#[trigger] prev[j]) as int) ==>
            absorb_from(c, st, i, prev, k).owner[i as int] == absorb_from(c, st, i, prev, k).owner[prev[j] as int],
    decreases prev.len() - k,
{
    lemma_row_of_facts(c, c[i as int].y - 1);
    let res = absorb_from(c, st, i, prev, k);
    if k >= prev.len() {
        lemma_refines_refl(st, c.len());
    } else {
        let p = prev[k as int];
        if (c[p as int].x as int) < c[i as int].x - 3 {
            lemma_absorb(c, st, i, prev, k + 1);
        } else if (c[p as int].x as int) > c[i as int].x + 3 {
            lemma_refines_refl(st, c.len());
            assert forall|j: int| k <= j < prev.len() && absorbs(c, i as int, (#[trigger] prev[j]) as int) implies
                res.owner[i as int] == res.owner[prev[j] as int] by {
                if j > k {
                    assert(prev[k as int] < prev[j]);
                    assert(c[prev[k as int] as int].y == c[i as int].y - 1);
                    assert(c[p as int].x <= c[i as int].x + 3);
                }
            }
        } else {
            assert forall|q: int| 0 <= q < p && (#[trigger] c[q]).y == c[i as int].y - 1 implies c[q].x <= c[i as int].x + 3 by {
                assert(prev.contains(q as usize));
                let w = choose|w: int| 0 <= w < prev.len() && prev[w] == q as usize;
                if w >= k {
                    if w > k {
                        assert(prev[k as int] < prev[w]);
                    }
                }
                assert(w < k);
                assert(c[prev[w] as int].x <= c[i as int].x + 3);
            }
            assert(absorbs(c, i as int, p as int));
            lemma_merge_inv(c, st, i, p);
            let st2 = merge(st, i, p);
            lemma_absorb(c, st2, i, prev, k + 1);
            assert(res == absorb_from(c, st2, i, prev, k + 1));
            lemma_refines_trans(st, st2, res, c.len());
            assert(st2.owner[i as int] == st2.owner[p as int]);
            assert(res.owner[i as int] == res.owner[p as int]);
        }
    }
}

/// Processing the candidates `cur[t..]` of a row keeps the invariants and
/// joins each of them with every candidate it absorbs.
proof fn lemma_process_row(c: Seq<CandidateFrom1D>, st: MergeState, cur: Seq<usize>, prev: Seq<usize>, t: nat, r: int)
    requires
        c.len() <= usize::MAX,
        partitioned(st, c.len()),
        owners_connected(c, st),
        r >= 1,
        cur == row_of(c, r),
        prev == row_of(c, r - 1),
        t <= cur.len(),
    ensures
        partitioned(process_row_from(c, st, cur, prev, t), c.len()),
        owners_connected(c, process_row_from(c, st, cur, prev, t)),
        refines(st, process_row_from(c, st, cur, prev, t), c.len()),
        forall|j: int, p: int| t <= j < cur.len() && #[trigger] absorbs(c, cur[j] as int, p) ==>
            process_row_from(c, st, cur, prev, t).owner[cur[j] as int]
                == process_row_from(c, st, cur, prev, t).owner[p],
    decreases cur.len() - t,
{
    lemma_row_of_facts(c, r);
    lemma_row_of_facts(c, r - 1);
    let res = process_row_from(c, st, cur, prev, t);
    if t >= cur.len() {
        lemma_refines_refl(st, c.len());
    } else {
        let i = cur[t as int];
        lemma_absorb(c, st, i, prev, 0);
        let st1 = absorb_from(c, st, i, prev, 0);
        lemma_process_row(c, st1, cur, prev, t + 1, r);
        assert(res == process_row_from(c, st1, cur, prev, t + 1));
        lemma_refines_trans(st, st1, res, c.len());
        assert forall|j: int, p: int| t <= j < cur.len() && #[trigger] absorbs(c, cur[j] as int, p) implies
            res.owner[cur[j] as int] == res.owner[p] by {
            if j == t {
                assert(c[p].y == r - 1);
                assert(prev.contains(p as usize));
                let w = choose|w: int| 0 <= w < prev.len() && prev[w] == p as usize;
                assert(absorbs(c, i as int, prev[w] as int));
                assert(st1.owner[i as int] == st1.owner[prev[w] as int]);
            }
        }
    }
}

/// Processing rows `r..=max_y` keeps the invariants and joins every candidate
/// of those rows with every candidate it absorbs.
proof fn lemma_process_rows(c: Seq<CandidateFrom1D>, st: MergeState, r: nat, max_y: nat)
    requires
        c.len() <= usize::MAX,
        partitioned(st, c.len()),
        owners_connected(c, st),
        r >= 1,
        forall|m: int| 0 <= m < c.len() ==> (#[trigger] c[m]).y <= max_y,
    ensures
        partitioned(process_rows_from(c, st, r, max_y), c.len()),
        owners_connected(c, process_rows_from(c, st, r, max_y)),
        refines(st, process_rows_from(c, st, r, max_y), c.len()),
        forall|i: int, p: int| #[trigger] absorbs(c, i, p) && c[i].y >= r ==>
            process_rows_from(c, st, r, max_y).owner[i] == process_rows_from(c, st, r, max_y).owner[p],
    decreases max_y + 1 - r,
{
    let res = process_rows_from(c, st, r, max_y);
    if r > max_y {
        lemma_refines_refl(st, c.len());
    } else {
        let cur = row_of(c, r as int);
        let prev = row_of(c, r - 1);
        lemma_process_row(c, st, cur, prev, 0, r as int);
        let st1 = process_row_from(c, st, cur, prev, 0);
        lemma_process_rows(c, st1, r + 1, max_y);
        assert(res == process_rows_from(c, st1, r + 1, max_y));
        lemma_refines_trans(st, st1, res, c.len());
        lemma_row_of_facts(c, r as int);
        assert forall|i: int, p: int| #[trigger] absorbs(c, i, p) && c[i].y >= r implies res.owner[i] == res.owner[p] by {
            if c[i].y == r {
                assert(cur.contains(i as usize));
                let w = choose|w: int| 0 <= w < cur.len() && cur[w] == i as usize;
                assert(absorbs(c, cur[w] as int, p));
                assert(st1.owner[cur[w] as int] == st1.owner[p]);
            }
        }
    }
}

/// The final merge state partitions the candidates, joins every absorbed
/// pair, and gives one owner only to connected candidates.
proof fn lemma_final_state(c: Seq<CandidateFrom1D>, max_y: nat)
    requires
        c.len() <= usize::MAX,
        forall|m: int| 0 <= m < c.len() ==> 0 <= (#[trigger] c[m]).y <= max_y,
    ensures
        partitioned(final_state(c, max_y), c.len()),
        owners_connected(c, final_state(c, max_y)),
        forall|i: int, p: int| #[trigger] absorbs(c, i, p) ==>
            final_state(c, max_y).owner[i] == final_state(c, max_y).owner[p],
{
    lemma_init_inv(c);
    lemma_process_rows(c, init_state(c.len()), 1, max_y);
}

/// Along a chain of links the final owner does not change.
proof fn lemma_chain_same_owner(c: Seq<CandidateFrom1D>, max_y: nat, path: Seq<int>, k: int)
    requires
        c.len() <= usize::MAX,
        forall|m: int| 0 <= m < c.len() ==> 0 <= (#[trigger] c[m]).y <= max_y,
        is_chain(c, path),
        0 <= k < path.len(),
    ensures
        final_state(c, max_y).owner[path[0]] == final_state(c, max_y).owner[path[k]],
    decreases k,
{
    if k > 0 {
        lemma_chain_same_owner(c, max_y, path, k - 1);
        lemma_final_state(c, max_y);
        let kk = k - 1;
        assert(linked(c, path[kk], path[kk + 1]));
        assert(kk + 1 == k);
        if absorbs(c, path[k - 1], path[k]) {
        } else {
            assert(absorbs(c, path[k], path[k - 1]));
        }
    }
}


/// The positions, in `lists`, of the lists that `keep_nonempty` keeps.
proof fn lemma_keep_nonempty(lists: Seq<Seq<usize>>) -> (idx: Seq<int>)
    ensures
        idx.len() == keep_nonempty(lists).len(),
        forall|k: int| 0 <= k < idx.len() ==> 0 <= #[trigger] idx[k] < lists.len()
            && keep_nonempty(lists)[k] == lists[idx[k]] && lists[idx[k]].len() > 0,
        forall|k1: int, k2: int| 0 <= k1 < k2 < idx.len() ==> #[trigger] idx[k1] < #[trigger] idx[k2],
        forall|b: int| 0 <= b < lists.len() && (#[trigger] lists[b]).len() > 0 ==> idx.contains(b),
    decreases lists.len(),
{
    if lists.len() == 0 {
        Seq::empty()
    } else {
        let front = lists.drop_last();
        let rest = lemma_keep_nonempty(front);
        let last = lists.len() - 1;
        assert forall|b: int| 0 <= b < front.len() implies #[trigger] front[b] == lists[b] by {}
        if lists.last().len() > 0 {
            let idx = rest.push(last);
            assert forall|k: int| 0 <= k < idx.len() implies 0 <= #[trigger] idx[k] < lists.len()
                && keep_nonempty(lists)[k] == lists[idx[k]] && lists[idx[k]].len() > 0 by {
                if k < rest.len() {
                    assert(idx[k] == rest[k]);
                    assert(front[rest[k]] == lists[rest[k]]);
                }
            }
            assert forall|b: int| 0 <= b < lists.len() && (#[trigger] lists[b]).len() > 0 implies idx.contains(b) by {
                if b < last {
                    assert(front[b] == lists[b]);
                    assert(rest.contains(b));
                    let w = choose|w: int| 0 <= w < rest.len() && rest[w] == b;
                    assert(idx[w] == b);
                } else {
                    assert(idx[idx.len() - 1] == b);
                }
            }
            idx
        } else {
            assert forall|k: int| 0 <= k < rest.len() implies 0 <= #[trigger] rest[k] < lists.len()
                && keep_nonempty(lists)[k] == lists[rest[k]] && lists[rest[k]].len() > 0 by {
                assert(front[rest[k]] == lists[rest[k]]);
            }
            assert forall|b: int| 0 <= b < lists.len() && (#[trigger] lists[b]).len() > 0 implies rest.contains(b) by {
                assert(b < last);
                assert(front[b] == lists[b]);
            }
            rest
        }
    }
}

// ---------------------------------------------------------------------------
// Laws
// ---------------------------------------------------------------------------

/// Blob formation partitions the candidates: every returned blob is
/// non-empty and lists each candidate at most once, and no candidate is
/// listed in two returned blobs (`blob_of_candidate` shows that each is
/// listed in one).
pub proof fn blobs_partition_candidates(c: Seq<CandidateFrom1D>, max_y: nat)
    requires
        c.len() <= usize::MAX,
        forall|m: int| 0 <= m < c.len() ==> 0 <= (#[trigger] c[m]).y <= max_y,
    ensures
        forall|k: int| 0 <= k < blob_members(c, max_y).len() ==> {
            &&& (#[trigger] blob_members(c, max_y)[k]).len() > 0
            &&& blob_members(c, max_y)[k].no_duplicates()
            &&& forall|j: int| 0 <= j < blob_members(c, max_y)[k].len()
                ==> (#[trigger] blob_members(c, max_y)[k][j]) < c.len()
        },
        forall|m: usize, k1: int, k2: int|
            0 <= k1 < blob_members(c, max_y).len() && 0 <= k2 < blob_members(c, max_y).len()
            && #[trigger] blob_members(c, max_y)[k1].contains(m)
            && #[trigger] blob_members(c, max_y)[k2].contains(m) ==> k1 == k2,
{
    let n = c.len();
    let f = final_state(c, max_y);
    let mem = blob_members(c, max_y);
    lemma_final_state(c, max_y);
    let idx = lemma_keep_nonempty(f.lists);
    assert forall|k: int| 0 <= k < mem.len() implies {
        &&& (#[trigger] mem[k]).len() > 0
        &&& mem[k].no_duplicates()
        &&& forall|j: int| 0 <= j < mem[k].len() ==> (#[trigger] mem[k][j]) < n
    } by {
        assert(mem[k] == f.lists[idx[k]]);
        assert(f.lists[idx[k]].no_duplicates());
    }
    assert forall|m: usize, k1: int, k2: int|
        0 <= k1 < mem.len() && 0 <= k2 < mem.len()
        && #[trigger] mem[k1].contains(m)
        && #[trigger] mem[k2].contains(m) implies k1 == k2 by {
        assert(mem[k1] == f.lists[idx[k1]]);
        assert(mem[k2] == f.lists[idx[k2]]);
        let j1 = choose|j: int| 0 <= j < mem[k1].len() && mem[k1][j] == m;
        let j2 = choose|j: int| 0 <= j < mem[k2].len() && mem[k2][j] == m;
        assert(f.owner[f.lists[idx[k1]][j1] as int] == idx[k1]);
        assert(f.owner[f.lists[idx[k2]][j2] as int] == idx[k2]);
        if k1 < k2 {
            assert(idx[k1] < idx[k2]);
        } else if k2 < k1 {
            assert(idx[k2] < idx[k1]);
        }
    }
}

/// Every candidate is listed in a returned blob; the blob's position is returned.
pub proof fn blob_of_candidate(c: Seq<CandidateFrom1D>, max_y: nat, m: int) -> (k: int)
    requires
        c.len() <= usize::MAX,
        forall|q: int| 0 <= q < c.len() ==> 0 <= (#[trigger] c[q]).y <= max_y,
        0 <= m < c.len(),
    ensures
        0 <= k < blob_members(c, max_y).len(),
        blob_members(c, max_y)[k].contains(m as usize),
{
    let f = final_state(c, max_y);
    let mem = blob_members(c, max_y);
    lemma_final_state(c, max_y);
    let idx = lemma_keep_nonempty(f.lists);
    let o = f.owner[m] as int;
    assert(f.lists[o].contains(m as usize));
    assert(idx.contains(o));
    let k = choose|k: int| 0 <= k < idx.len() && idx[k] == o;
    assert(mem[k] == f.lists[o]);
    k
}

/// Each returned blob is a link component: given a candidate `a` of a blob,
/// another candidate `b` is in that blob exactly when a chain of links joins
/// `a` and `b`. In particular every pair that the row scan links (one
/// absorbs the other) ends in one blob.
pub proof fn blobs_are_link_components(c: Seq<CandidateFrom1D>, max_y: nat)
    requires
        c.len() <= usize::MAX,
        forall|m: int| 0 <= m < c.len() ==> 0 <= (#[trigger] c[m]).y <= max_y,
    ensures
        forall|k: int, a: int, b: int|
            0 <= k < blob_members(c, max_y).len() && 0 <= a < c.len() && 0 <= b < c.len()
            && (#[trigger] blob_members(c, max_y)[k]).contains(a as usize)
            ==> (blob_members(c, max_y)[k].contains(b as usize) <==> #[trigger] connected(c, a, b)),
{
    let n = c.len();
    let f = final_state(c, max_y);
    let mem = blob_members(c, max_y);
    lemma_final_state(c, max_y);
    let idx = lemma_keep_nonempty(f.lists);
    assert forall|k: int, a: int, b: int|
        0 <= k < mem.len() && 0 <= a < n && 0 <= b < n
        && (#[trigger] mem[k]).contains(a as usize)
        implies (mem[k].contains(b as usize) <==> #[trigger] connected(c, a, b)) by {
        let o = idx[k];
        assert(mem[k] == f.lists[o]);
        let ja = choose|j: int| 0 <= j < mem[k].len() && mem[k][j] == a as usize;
        assert(f.owner[f.lists[o][ja] as int] == o);
        assert(f.owner[a] == o);
        if mem[k].contains(b as usize) {
            let jb = choose|j: int| 0 <= j < mem[k].len() && mem[k][j] == b as usize;
            assert(f.owner[f.lists[o][jb] as int] == o);
            assert(f.owner[b] == o);
        }
        if connected(c, a, b) {
            let path = choose|path: Seq<int>| is_chain(c, path) && path[0] == a && path.last() == b;
            lemma_chain_same_owner(c, max_y, path, path.len() - 1);
            assert(f.owner[b] == o);
            assert(f.lists[f.owner[b] as int].contains(b as usize));
        }
    }
}

/// Rows listed left to right: within a row, candidates appear in order of column.
pub open spec fn rows_left_to_right(c: Seq<CandidateFrom1D>) -> bool {
    forall|q1: int, q2: int| 0 <= q1 < q2 < c.len() && (#[trigger] c[q1]).y == (#[trigger] c[q2]).y ==> c[q1].x <= c[q2].x
}

/// Candidates in adjacent rows whose columns differ by at most 3 end in the
/// same blob, when each row's candidates are listed left to right (as the row
/// scan produces them). Without that order the scan of the upper row can stop
/// early and miss such a pair.
pub proof fn adjacent_candidates_share_a_blob(c: Seq<CandidateFrom1D>, max_y: nat, a: int, b: int)
    requires
        c.len() <= usize::MAX,
        forall|m: int| 0 <= m < c.len() ==> 0 <= (#[trigger] c[m]).y <= max_y,
        rows_left_to_right(c),
        0 <= a < c.len(),
        0 <= b < c.len(),
        c[b].y == c[a].y + 1,
        c[b].x - 3 <= c[a].x <= c[b].x + 3,
    ensures
        exists|k: int| 0 <= k < blob_members(c, max_y).len()
            && (#[trigger] blob_members(c, max_y)[k]).contains(a as usize)
            && blob_members(c, max_y)[k].contains(b as usize),
{
    assert forall|q: int| 0 <= q < a && (#[trigger] c[q]).y == c[b].y - 1 implies c[q].x <= c[b].x + 3 by {
        assert(c[q].y == c[a].y);
    }
    assert(absorbs(c, b, a));
    lemma_linked_connected(c, b, a);
    lemma_connected_sym(c, b, a);
    blobs_are_link_components(c, max_y);
    let mem = blob_members(c, max_y);
    let k = blob_of_candidate(c, max_y, a);
    assert(connected(c, a, b));
    assert(mem[k].contains(b as usize));
}

} // verus!
