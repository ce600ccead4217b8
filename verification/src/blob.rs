//! Grouping of 1-D row-scan star candidates into spatial blobs.
//!
//! Candidates in adjacent rows whose columns differ by at most 3 pixels are
//! merged into one blob; the blobs that remain non-empty are returned.

use vstd::prelude::*;

verus! {

/// A bright pixel run found by the 1-D row scan, at column `x` of row `y`.
#[derive(Debug, Clone, Copy, PartialEq, Eq, Structural)]
pub struct CandidateFrom1D {
    pub x: i32,
    pub y: i32,
}

/// A spatial blob of connected 1-D candidates.
pub struct Blob {
    pub candidates: Vec<CandidateFrom1D>,
    /// If `candidates` is empty, this blob was merged into another.
    pub recipient_blob: Option<usize>,
}

// ---------------------------------------------------------------------------
// Specification model
// ---------------------------------------------------------------------------

/// Indices, in increasing order, of the first `k` candidates that lie in row `r`.
pub open spec fn row_prefix(c: Seq<CandidateFrom1D>, r: int, k: nat) -> Seq<usize>
    decreases k,
{
    if k == 0 {
        Seq::empty()
    } else {
        let before = row_prefix(c, r, (k - 1) as nat);
        if c[k - 1].y == r {
            before.push((k - 1) as usize)
        } else {
            before
        }
    }
}

/// Indices, in increasing order, of the candidates that lie in row `r`.
pub open spec fn row_of(c: Seq<CandidateFrom1D>, r: int) -> Seq<usize> {
    row_prefix(c, r, c.len())
}

/// Bookkeeping of the merge process: `owner[m]` is the blob that currently
/// holds candidate `m`, and `lists[b]` the candidates of blob `b`, in order.
pub struct MergeState {
    pub owner: Seq<usize>,
    pub lists: Seq<Seq<usize>>,
}

/// Every candidate starts in a blob of its own, numbered like the candidate.
pub open spec fn init_state(n: nat) -> MergeState {
    MergeState {
        owner: Seq::new(n, |m: int| m as usize),
        lists: Seq::new(n, |m: int| seq![m as usize]),
    }
}

/// Merging the blob holding `p` into the blob holding `i`: the donor's
/// candidates are appended to the recipient's and the donor is left empty.
pub open spec fn merge(st: MergeState, i: usize, p: usize) -> MergeState {
    let r = st.owner[i as int];
    let b = st.owner[p as int];
    if b == r {
        st
    } else {
        MergeState {
            owner: Seq::new(
                st.owner.len(),
                |m: int| if st.lists[b as int].contains(m as usize) { r } else { st.owner[m] },
            ),
            lists: st.lists.update(r as int, st.lists[r as int] + st.lists[b as int]).update(
                b as int,
                Seq::empty(),
            ),
        }
    }
}

/// Candidate `i` absorbs the blobs of the previous-row candidates `prev[k..]`:
/// those more than 3 columns to its left are skipped, and the scan stops at the
/// first one more than 3 columns to its right.
pub open spec fn absorb_from(
    c: Seq<CandidateFrom1D>,
    st: MergeState,
    i: usize,
    prev: Seq<usize>,
    k: nat,
) -> MergeState
    decreases prev.len() - k,
{
    if k >= prev.len() {
        st
    } else {
        let p = prev[k as int];
        if (c[p as int].x as int) < c[i as int].x - 3 {
            absorb_from(c, st, i, prev, k + 1)
        } else if (c[p as int].x as int) > c[i as int].x + 3 {
            st
        } else {
            absorb_from(c, merge(st, i, p), i, prev, k + 1)
        }
    }
}

/// The candidates `cur[t..]` of a row, in order, each absorb from the previous row.
pub open spec fn process_row_from(
    c: Seq<CandidateFrom1D>,
    st: MergeState,
    cur: Seq<usize>,
    prev: Seq<usize>,
    t: nat,
) -> MergeState
    decreases cur.len() - t,
{
    if t >= cur.len() {
        st
    } else {
        process_row_from(c, absorb_from(c, st, cur[t as int], prev, 0), cur, prev, t + 1)
    }
}

/// Rows `r..=max_y` processed in increasing order.
pub open spec fn process_rows_from(
    c: Seq<CandidateFrom1D>,
    st: MergeState,
    r: nat,
    max_y: nat,
) -> MergeState
    decreases max_y + 1 - r,
{
    if r > max_y || r == 0 {
        st
    } else {
        process_rows_from(
            c,
            process_row_from(c, st, row_of(c, r as int), row_of(c, r - 1), 0),
            r + 1,
            max_y,
        )
    }
}

/// The merge state after all rows `1..=max_y` have been processed.
pub open spec fn final_state(c: Seq<CandidateFrom1D>, max_y: nat) -> MergeState {
    process_rows_from(c, init_state(c.len()), 1, max_y)
}

/// The non-empty lists of `lists`, in order.
pub open spec fn keep_nonempty(lists: Seq<Seq<usize>>) -> Seq<Seq<usize>>
    decreases lists.len(),
{
    if lists.len() == 0 {
        Seq::empty()
    } else {
        let rest = keep_nonempty(lists.drop_last());
        if lists.last().len() > 0 {
            rest.push(lists.last())
        } else {
            rest
        }
    }
}

/// Candidate indices of each returned blob, in order.
pub open spec fn blob_members(c: Seq<CandidateFrom1D>, max_y: nat) -> Seq<Seq<usize>> {
    keep_nonempty(final_state(c, max_y).lists)
}

/// All owners and list entries are candidate indices below `n`.
pub open spec fn state_bounded(st: MergeState, n: nat) -> bool {
    &&& st.owner.len() == n
    &&& st.lists.len() == n
    &&& forall|m: int| 0 <= m < n ==> (#[trigger] st.owner[m]) < n
    &&& forall|b: int, j: int|
        0 <= b < n && 0 <= j < st.lists[b].len() ==> (#[trigger] st.lists[b][j]) < n
}

/// The merge state held by the executable owner table and member lists.
pub open spec fn view_state(owner: Seq<usize>, members: Seq<Vec<usize>>) -> MergeState {
    MergeState { owner, lists: members.map_values(|v: Vec<usize>| v@) }
}


// ---------------------------------------------------------------------------
// Implementation
// ---------------------------------------------------------------------------

pub(crate) proof fn lemma_merge_bounded(st: MergeState, n: nat, i: usize, p: usize)
    requires
        state_bounded(st, n),
        i < n,
        p < n,
    ensures
        state_bounded(merge(st, i, p), n),
{
    let r = st.owner[i as int];
    let b = st.owner[p as int];
    if b != r {
        let st2 = merge(st, i, p);
        assert forall|bb: int, j: int| 0 <= bb < n && 0 <= j < st2.lists[bb].len() implies
            (#[trigger] st2.lists[bb][j]) < n by {
            if bb == r as int {
                if j < st.lists[r as int].len() {
                    assert(st2.lists[bb][j] == st.lists[r as int][j]);
                } else {
                    assert(st2.lists[bb][j] == st.lists[b as int][j - st.lists[r as int].len()]);
                }
            }
        }
    }
}

/// Moves the blob holding `p` into the blob holding `i`.
fn merge_into(owner: &mut Vec<usize>, members: &mut Vec<Vec<usize>>, i: usize, p: usize)
    requires
        state_bounded(view_state(old(owner)@, old(members)@), old(owner)@.len()),
        i < old(owner)@.len(),
        p < old(owner)@.len(),
    ensures
        final(owner)@.len() == old(owner)@.len(),
        view_state(final(owner)@, final(members)@) == merge(view_state(old(owner)@, old(members)@), i, p),
{
    let ghost st = view_state(owner@, members@);
    let ghost n = owner@.len();
    let n_exec = owner.len();
    assert(n == n_exec as nat);
    let r = owner[i];
    let b = owner[p];
    if b != r {
        assert(st.lists[b as int] == members@[b as int]@);
        let mut moved: Vec<usize> = Vec::new();
        std::mem::swap(&mut members[b], &mut moved);
        assert(moved@ == st.lists[b as int]);
        let ghost owner0 = owner@;
        let mut t: usize = 0;
        while t < moved.len()
            invariant
                0 <= t <= moved@.len(),
                moved@ == st.lists[b as int],
                owner0 == st.owner,
                owner@.len() == n,
                n <= usize::MAX,
                r < n,
                b < n,
                forall|j: int| 0 <= j < moved@.len() ==> (#[trigger] moved@[j]) < n,
                forall|m: int| 0 <= m < n ==> #[trigger] owner@[m] == (if moved@.take(t as int).contains(m as usize) { r } else { owner0[m] }),
            decreases moved@.len() - t,
        {
            let m = moved[t];
            let ghost prev_owner = owner@;
            owner[m] = r;
            assert(moved@.take(t as int + 1) == moved@.take(t as int).push(m));
            assert forall|mm: int| 0 <= mm < n implies #[trigger] owner@[mm] == (if moved@.take(t as int + 1).contains(mm as usize) { r } else { owner0[mm] }) by {
                let s0 = moved@.take(t as int);
                let s1 = moved@.take(t as int + 1);
                assert(s1 == s0.push(m));
                assert(prev_owner[mm] == (if s0.contains(mm as usize) { r } else { owner0[mm] }));
                if mm == m as int {
                    assert(s1[t as int] == m);
                    assert(s1.contains(mm as usize));
                    assert(owner@[mm] == r);
                } else {
                    assert(owner@[mm] == prev_owner[mm]);
                    if s0.contains(mm as usize) {
                        let w = choose|w: int| 0 <= w < s0.len() && s0[w] == mm as usize;
                        assert(s1[w] == mm as usize);
                        assert(s1.contains(mm as usize));
                    }
                    if s1.contains(mm as usize) {
                        let w = choose|w: int| 0 <= w < s1.len() && s1[w] == mm as usize;
                        if w == t as int {
                            assert(s1[w] == m);
                            assert(false);
                        }
                        assert(s0[w] == mm as usize);
                        assert(s0.contains(mm as usize));
                    }
                }
            }
            t += 1;
        }
        assert(moved@.take(moved@.len() as int) == moved@);
        members[r].append(&mut moved);
        let ghost st2 = merge(st, i, p);
        assert(owner@ =~= st2.owner);
        assert(members@.map_values(|v: Vec<usize>| v@) =~= st2.lists);
    }
}

/// Group 1-D row-scan candidates into spatial blobs.
///
/// Candidates within a horizontal distance of 3 pixels between adjacent rows
/// are merged into the same blob. Returns only non-empty blobs.
pub fn form_blobs_from_candidates(candidates: Vec<CandidateFrom1D>, max_y: usize) -> (blobs: Vec<Blob>)
    requires
        max_y < usize::MAX,
        forall|i: int| 0 <= i < candidates@.len() ==> 0 <= #[trigger] candidates@[i].y <= max_y,
    ensures
        blobs@.len() == blob_members(candidates@, max_y as nat).len(),
        forall|k: int| 0 <= k < blobs@.len() ==> {
            &&& (#[trigger] blobs@[k]).recipient_blob is None
            &&& blobs@[k].candidates@ == blob_members(candidates@, max_y as nat)[k].map_values(
                |m: usize| candidates@[m as int],
            )
        },
{
    let ghost c = candidates@;
    let n = candidates.len();

    // Bucket candidate indices by row, keeping input order within a row.
    let mut rows: Vec<Vec<usize>> = Vec::new();
    let mut r: usize = 0;
    while r <= max_y
        invariant
            max_y < usize::MAX,
            r <= max_y + 1,
            rows@.len() == r,
            forall|rr: int| 0 <= rr < r ==> (#[trigger] rows@[rr])@ == Seq::<usize>::empty(),
        decreases max_y + 1 - r,
    {
        rows.push(Vec::new());
        r += 1;
    }
    let mut k: usize = 0;
    while k < n
        invariant
            c == candidates@,
            n == c.len(),
            k <= n,
            rows@.len() == max_y + 1,
            forall|i: int| 0 <= i < c.len() ==> 0 <= #[trigger] c[i].y <= max_y,
            forall|rr: int| 0 <= rr <= max_y ==> (#[trigger] rows@[rr])@ == row_prefix(c, rr, k as nat),
        decreases n - k,
    {
        let y = candidates[k].y as usize;
        rows[y].push(k);
        assert forall|rr: int| 0 <= rr <= max_y implies (#[trigger] rows@[rr])@ == row_prefix(c, rr, (k + 1) as nat) by {
        }
        k += 1;
    }

    // Every candidate starts as a blob of its own.
    let mut owner: Vec<usize> = Vec::new();
    let mut members: Vec<Vec<usize>> = Vec::new();
    let mut m: usize = 0;
    while m < n
        invariant
            m <= n,
            owner@.len() == m,
            members@.len() == m,
            forall|j: int| 0 <= j < m ==> #[trigger] owner@[j] == j as usize,
            forall|j: int| 0 <= j < m ==> (#[trigger] members@[j])@ == seq![j as usize],
        decreases n - m,
    {
        owner.push(m);
        let mut single: Vec<usize> = Vec::new();
        single.push(m);
        members.push(single);
        m += 1;
    }
    assert(view_state(owner@, members@) =~= init_state(n as nat)) by {
        assert(owner@ =~= init_state(n as nat).owner);
        assert(members@.map_values(|v: Vec<usize>| v@) =~= init_state(n as nat).lists);
    }

        let ghost target = final_state(c, max_y as nat);
    proof {
        lemma_rows_bounded(c, max_y as nat);
    }

    // Merge across adjacent rows, row by row.
    let mut rownum: usize = 1;
    while rownum <= max_y
        invariant
            c == candidates@,
            n == c.len(),
            max_y < usize::MAX,
            1 <= rownum <= max_y + 1,
            rows@.len() == max_y + 1,
            forall|rr: int| 0 <= rr <= max_y ==> (#[trigger] rows@[rr])@ == row_of(c, rr),
            forall|rr: int, j: int| 0 <= rr <= max_y && 0 <= j < row_of(c, rr).len() ==> (#[trigger] row_of(c, rr)[j]) < n,
            owner@.len() == n,
            members@.len() == n,
            state_bounded(view_state(owner@, members@), n as nat),
            process_rows_from(c, view_state(owner@, members@), rownum as nat, max_y as nat) == target,
        decreases max_y + 1 - rownum,
    {
        let ghost cur = row_of(c, rownum as int);
        let ghost prev = row_of(c, rownum - 1);
        let ghost row_start = view_state(owner@, members@);
        let cur_len = rows[rownum].len();
        let mut t: usize = 0;
        while t < cur_len
            invariant
                c == candidates@,
                n == c.len(),
                1 <= rownum <= max_y,
                rows@.len() == max_y + 1,
                forall|rr: int| 0 <= rr <= max_y ==> (#[trigger] rows@[rr])@ == row_of(c, rr),
                forall|rr: int, j: int| 0 <= rr <= max_y && 0 <= j < row_of(c, rr).len() ==> (#[trigger] row_of(c, rr)[j]) < n,
                cur == row_of(c, rownum as int),
                prev == row_of(c, rownum - 1),
                cur_len == cur.len(),
                t <= cur_len,
                owner@.len() == n,
                members@.len() == n,
                state_bounded(view_state(owner@, members@), n as nat),
                process_row_from(c, view_state(owner@, members@), cur, prev, t as nat)
                    == process_row_from(c, row_start, cur, prev, 0),
            decreases cur_len - t,
        {
            let i = rows[rownum][t];
            assert(i == cur[t as int]);
            let xi = candidates[i].x as i64;
            let prev_len = rows[rownum - 1].len();
            let ghost cand_start = view_state(owner@, members@);
            let mut q: usize = 0;
            let mut stop = false;
            while q < prev_len && !stop
                invariant
                    c == candidates@,
                    n == c.len(),
                    1 <= rownum <= max_y,
                    rows@.len() == max_y + 1,
                    forall|rr: int| 0 <= rr <= max_y ==> (#[trigger] rows@[rr])@ == row_of(c, rr),
                    forall|rr: int, j: int| 0 <= rr <= max_y && 0 <= j < row_of(c, rr).len() ==> (#[trigger] row_of(c, rr)[j]) < n,
                    prev == row_of(c, rownum - 1),
                    prev_len == prev.len(),
                    i < n,
                    xi == c[i as int].x,
                    q <= prev_len,
                    owner@.len() == n,
                    members@.len() == n,
                    state_bounded(view_state(owner@, members@), n as nat),
                    stop ==> view_state(owner@, members@) == absorb_from(c, cand_start, i, prev, 0),
                    !stop ==> absorb_from(c, view_state(owner@, members@), i, prev, q as nat)
                        == absorb_from(c, cand_start, i, prev, 0),
                decreases prev_len - q, (if stop { 0int } else { 1int }),
            {
                let pidx = rows[rownum - 1][q];
                assert(pidx == prev[q as int]);
                let xp = candidates[pidx].x as i64;
                if xp < xi - 3 {
                    q += 1;
                } else if xp > xi + 3 {
                    stop = true;
                } else {
                    proof {
                        lemma_merge_bounded(view_state(owner@, members@), n as nat, i, pidx);
                    }
                    merge_into(&mut owner, &mut members, i, pidx);
                    q += 1;
                }
            }
            t += 1;
        }
        rownum += 1;
    }
    assert(view_state(owner@, members@) == target);

    // Keep the non-empty blobs, in blob order.
    let mut blobs: Vec<Blob> = Vec::new();
    let mut b: usize = 0;
    while b < n
        invariant
            c == candidates@,
            n == c.len(),
            b <= n,
            owner@.len() == n,
            members@.len() == n,
            view_state(owner@, members@) == target,
            state_bounded(target, n as nat),
            blobs@.len() == keep_nonempty(target.lists.take(b as int)).len(),
            forall|kk: int| 0 <= kk < blobs@.len() ==> {
                &&& (#[trigger] blobs@[kk]).recipient_blob is None
                &&& blobs@[kk].candidates@ == keep_nonempty(target.lists.take(b as int))[kk].map_values(
                    |m: usize| c[m as int],
                )
            },
        decreases n - b,
    {
        assert(target.lists.take(b as int + 1).drop_last() =~= target.lists.take(b as int));
        assert(target.lists[b as int] == members@[b as int]@);
        let len_b = members[b].len();
        if len_b > 0 {
            let mut cs: Vec<CandidateFrom1D> = Vec::new();
            let mut j: usize = 0;
            while j < len_b
                invariant
                    c == candidates@,
                    n == c.len(),
                    b < n,
                    members@.len() == n,
                    len_b == members@[b as int]@.len(),
                    members@[b as int]@ == target.lists[b as int],
                    state_bounded(target, n as nat),
                    j <= len_b,
                    cs@ == members@[b as int]@.take(j as int).map_values(|m: usize| c[m as int]),
                decreases len_b - j,
            {
                let mi = members[b][j];
                assert(mi == target.lists[b as int][j as int]);
                cs.push(candidates[mi]);
                assert(members@[b as int]@.take(j as int + 1) == members@[b as int]@.take(j as int).push(mi));
                assert(cs@ =~= members@[b as int]@.take(j as int + 1).map_values(|m: usize| c[m as int]));
                j += 1;
            }
            assert(members@[b as int]@.take(len_b as int) == members@[b as int]@);
            blobs.push(Blob { candidates: cs, recipient_blob: None });
        }
        b += 1;
    }
    assert(target.lists.take(n as int) == target.lists);
    blobs
}

proof fn lemma_row_prefix_bounded(c: Seq<CandidateFrom1D>, r: int, k: nat)
    requires
        k <= c.len(),
    ensures
        forall|j: int| 0 <= j < row_prefix(c, r, k).len() ==> (#[trigger] row_prefix(c, r, k)[j]) < k,
    decreases k,
{
    if k > 0 {
        lemma_row_prefix_bounded(c, r, (k - 1) as nat);
        let before = row_prefix(c, r, (k - 1) as nat);
        assert forall|j: int| 0 <= j < row_prefix(c, r, k).len() implies (#[trigger] row_prefix(c, r, k)[j]) < k by {
            if j < before.len() {
                assert(row_prefix(c, r, k)[j] == before[j]);
            }
        }
    }
}

proof fn lemma_rows_bounded(c: Seq<CandidateFrom1D>, max_y: nat)
    ensures
        forall|rr: int, j: int| 0 <= rr <= max_y && 0 <= j < row_of(c, rr).len() ==> (#[trigger] row_of(c, rr)[j]) < c.len(),
{
    assert forall|rr: int, j: int| 0 <= rr <= max_y && 0 <= j < row_of(c, rr).len() implies (#[trigger] row_of(c, rr)[j]) < c.len() by {
        lemma_row_prefix_bounded(c, rr, c.len());
    }
}

} // verus!
