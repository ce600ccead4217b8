//! Index bookkeeping around a candidate match: which cluster-bust survivors
//! may form patterns, the catalog rows a pattern slot names, the catalog id
//! reported for a star, and the reduction of centroid pairs to a one-to-one
//! matching.

use vstd::prelude::*;

verus! {

// ---------------------------------------------------------------------------
// Pattern centroids
// ---------------------------------------------------------------------------

/// The survivors of cluster busting that lie among the first `limit` centroids,
/// in the order given.
pub open spec fn indices_below(kept: Seq<usize>, limit: usize) -> Seq<usize> {
    kept.filter(|i: usize| i < limit)
}

/// Keeps, in order, the cluster-bust survivors that index one of the first
/// `limit` centroids.
pub fn pattern_centroid_indices(kept: &Vec<usize>, limit: usize) -> (out: Vec<usize>)
    ensures
        out@ == indices_below(kept@, limit),
{
    let ghost pred = |i: usize| i < limit;
    let mut out: Vec<usize> = Vec::new();
    let mut i: usize = 0;
    while i < kept.len()
        invariant
            i <= kept.len(),
            pred == (|i: usize| i < limit),
            out@ == kept@.subrange(0, i as int).filter(pred),
        decreases kept.len() - i,
    {
        let ghost prefix = kept@.subrange(0, i as int);
        let ghost next = kept@.subrange(0, i + 1);
        assert(next.drop_last() == prefix);
        assert(next.last() == kept@[i as int]);
        proof {
            reveal(Seq::filter);
        }
        if kept[i] < limit {
            out.push(kept[i]);
        }
        i += 1;
    }
    assert(kept@.subrange(0, kept@.len() as int) == kept@);
    out
}

// ---------------------------------------------------------------------------
// Catalog tables
// ---------------------------------------------------------------------------

/// The pattern catalog and star-id tables of a database, at whichever integer
/// width the database stored them. A database holds at most one pattern
/// catalog width and at most one id width that is used.
pub struct CatalogTables {
    pub pattern_catalog_u8: Option<Vec<[u8; 4]>>,
    pub pattern_catalog_u16: Option<Vec<[u16; 4]>>,
    pub pattern_catalog_u32: Option<Vec<[u32; 4]>>,
    pub star_catalog_ids_u32: Option<Vec<u32>>,
    pub star_catalog_ids_u16: Option<Vec<u16>>,
}

/// Number of slots in the pattern catalog that is consulted: the narrowest
/// one present, or none.
pub open spec fn catalog_slots(db: CatalogTables) -> Option<nat> {
    match db.pattern_catalog_u8 {
        Some(c) => Some(c@.len()),
        None => match db.pattern_catalog_u16 {
            Some(c) => Some(c@.len()),
            None => match db.pattern_catalog_u32 {
                Some(c) => Some(c@.len()),
                None => None,
            },
        },
    }
}

/// The four star-table rows of pattern `slot`, widened to `u32`; all zero when
/// the database holds no pattern catalog.
pub open spec fn pattern_star_rows(db: CatalogTables, slot: int) -> [u32; 4] {
    match db.pattern_catalog_u8 {
        Some(c) => [c@[slot][0] as u32, c@[slot][1] as u32, c@[slot][2] as u32, c@[slot][3] as u32],
        None => match db.pattern_catalog_u16 {
            Some(c) => [c@[slot][0] as u32, c@[slot][1] as u32, c@[slot][2] as u32, c@[slot][3] as u32],
            None => match db.pattern_catalog_u32 {
                Some(c) => c@[slot],
                None => [0u32, 0u32, 0u32, 0u32],
            },
        },
    }
}

/// Gets the 4 star-table indices for a given pattern catalog slot.
pub fn get_pattern_star_indices(db: &CatalogTables, slot: usize) -> (rows: [u32; 4])
    requires
        catalog_slots(*db) matches Some(n) ==> slot < n,
    ensures
        rows == pattern_star_rows(*db, slot as int),
{
    if let Some(cat_u8) = &db.pattern_catalog_u8 {
        let row = cat_u8[slot];
        [row[0] as u32, row[1] as u32, row[2] as u32, row[3] as u32]
    } else if let Some(cat_u16) = &db.pattern_catalog_u16 {
        let row = cat_u16[slot];
        [row[0] as u32, row[1] as u32, row[2] as u32, row[3] as u32]
    } else if let Some(cat_u32) = &db.pattern_catalog_u32 {
        cat_u32[slot]
    } else {
        [0u32; 4]
    }
}

/// Number of entries in the id table that is consulted: the 32-bit one if
/// present, else the 16-bit one, or none.
pub open spec fn id_entries(db: CatalogTables) -> Option<nat> {
    match db.star_catalog_ids_u32 {
        Some(ids) => Some(ids@.len()),
        None => match db.star_catalog_ids_u16 {
            Some(ids) => Some(ids@.len()),
            None => None,
        },
    }
}

/// The catalog id reported for star-table row `star`: from the 32-bit id
/// table, else from the 16-bit one, else the row number itself.
pub open spec fn star_catalog_id(db: CatalogTables, star: usize) -> u32 {
    match db.star_catalog_ids_u32 {
        Some(ids) => ids@[star as int],
        None => match db.star_catalog_ids_u16 {
            Some(ids) => ids@[star as int] as u32,
            None => star as u32,
        },
    }
}

/// Looks up the catalog id of star-table row `star`, falling back to the row
/// number when the database carries no id table.
pub fn catalog_id(db: &CatalogTables, star: usize) -> (id: u32)
    requires
        id_entries(*db) matches Some(n) ==> star < n,
    ensures
        id == star_catalog_id(*db, star),
{
    if let Some(ids) = &db.star_catalog_ids_u32 {
        ids[star]
    } else if let Some(ids) = &db.star_catalog_ids_u16 {
        ids[star] as u32
    } else {
        star as u32
    }
}

// ---------------------------------------------------------------------------
// One-to-one matching
// ---------------------------------------------------------------------------

/// Keeps, in order, the first pair for each value of coordinate `k`
/// (0: image index, 1: catalog index).
pub open spec fn first_per(s: Seq<[usize; 2]>, k: int) -> Seq<[usize; 2]>
    decreases s.len(),
{
    if s.len() == 0 {
        s
    } else {
        let rest = first_per(s.drop_last(), k);
        if exists|j: int| 0 <= j < s.len() - 1 && (#[trigger] s[j])[k] == s.last()[k] {
            rest
        } else {
            rest.push(s.last())
        }
    }
}

/// The matching kept from the candidate pairs: first one pair per catalog
/// star, then one per image star, each time the first found.
pub open spec fn one_to_one(pairs: Seq<[usize; 2]>) -> Seq<[usize; 2]> {
    first_per(first_per(pairs, 1), 0)
}

/// What `first_per` keeps comes from its input, has distinct values in
/// coordinate `k`, and covers every value of coordinate `k` of the input.
pub proof fn lemma_first_per(s: Seq<[usize; 2]>, k: int)
    ensures
        forall|t: int| 0 <= t < first_per(s, k).len() ==> s.contains(#[trigger] first_per(s, k)[t]),
        forall|a: int, b: int| 0 <= a < b < first_per(s, k).len()
            ==> (#[trigger] first_per(s, k)[a])[k] != (#[trigger] first_per(s, k)[b])[k],
        forall|j: int| 0 <= j < s.len() ==> exists|t: int|
            0 <= t < first_per(s, k).len() && (#[trigger] first_per(s, k)[t])[k] == (#[trigger] s[j])[k],
    decreases s.len(),
{
    if s.len() > 0 {
        let d = s.drop_last();
        lemma_first_per(d, k);
        let rest = first_per(d, k);
        let r = first_per(s, k);
        assert forall|t: int| 0 <= t < rest.len() implies s.contains(#[trigger] rest[t]) by {
            let w = choose|w: int| 0 <= w < d.len() && d[w] == rest[t];
            assert(s[w] == rest[t]);
        }
        if exists|j: int| 0 <= j < s.len() - 1 && (#[trigger] s[j])[k] == s.last()[k] {
            assert(r == rest);
            assert forall|j: int| 0 <= j < s.len() implies exists|t: int|
                0 <= t < r.len() && (#[trigger] r[t])[k] == (#[trigger] s[j])[k] by {
                if j < s.len() - 1 {
                    assert(d[j] == s[j]);
                } else {
                    let w = choose|w: int| 0 <= w < s.len() - 1 && (#[trigger] s[w])[k] == s.last()[k];
                    assert(d[w] == s[w]);
                }
            }
        } else {
            assert(r == rest.push(s.last()));
            assert forall|a: int, b: int| 0 <= a < b < r.len() implies (#[trigger] r[a])[k] != (#[trigger] r[b])[k] by {
                if b == r.len() - 1 {
                    assert(r[a] == rest[a]);
                    let w = choose|w: int| 0 <= w < d.len() && d[w] == rest[a];
                    assert(s[w] == d[w]);
                } else {
                    assert(r[a] == rest[a] && r[b] == rest[b]);
                }
            }
            assert forall|t: int| 0 <= t < r.len() implies s.contains(#[trigger] r[t]) by {
                if t < rest.len() {
                    assert(r[t] == rest[t]);
                } else {
                    assert(s[s.len() - 1] == r[t]);
                }
            }
            assert forall|j: int| 0 <= j < s.len() implies exists|t: int|
                0 <= t < r.len() && (#[trigger] r[t])[k] == (#[trigger] s[j])[k] by {
                if j < s.len() - 1 {
                    assert(d[j] == s[j]);
                    let t = choose|t: int| 0 <= t < rest.len() && (#[trigger] rest[t])[k] == d[j][k];
                    assert(r[t] == rest[t]);
                } else {
                    assert(r[r.len() - 1] == s[j]);
                }
            }
        }
    }
}

proof fn lemma_first_per_from(s: Seq<[usize; 2]>, k: int)
    ensures
        forall|t: int| 0 <= t < first_per(s, k).len() ==> s.contains(#[trigger] first_per(s, k)[t]),
{
    lemma_first_per(s, k);
}

proof fn lemma_first_per_distinct(s: Seq<[usize; 2]>, k: int)
    ensures
        forall|a: int, b: int| 0 <= a < b < first_per(s, k).len()
            ==> (#[trigger] first_per(s, k)[a])[k] != (#[trigger] first_per(s, k)[b])[k],
{
    lemma_first_per(s, k);
}

/// The kept matching uses each image star and each catalog star at most
/// once, and every kept pair is one of the candidate pairs.
pub proof fn matching_is_one_to_one(pairs: Seq<[usize; 2]>)
    ensures
        forall|t: int| 0 <= t < one_to_one(pairs).len() ==> pairs.contains(#[trigger] one_to_one(pairs)[t]),
        forall|a: int, b: int| 0 <= a < b < one_to_one(pairs).len() ==> {
            &&& (#[trigger] one_to_one(pairs)[a])[0] != (#[trigger] one_to_one(pairs)[b])[0]
            &&& one_to_one(pairs)[a][1] != one_to_one(pairs)[b][1]
        },
{
    let c = first_per(pairs, 1);
    let m = first_per(c, 0);
    lemma_first_per_from(pairs, 1);
    lemma_first_per_from(c, 0);
    lemma_first_per_distinct(pairs, 1);
    lemma_first_per_distinct(c, 0);
    assert forall|t: int| 0 <= t < m.len() implies pairs.contains(#[trigger] m[t]) by {
        assert(c.contains(m[t]));
        let w = choose|w: int| 0 <= w < c.len() && c[w] == m[t];
        assert(pairs.contains(c[w]));
    }
    assert forall|a: int, b: int| 0 <= a < b < m.len() implies {
        &&& (#[trigger] m[a])[0] != (#[trigger] m[b])[0]
        &&& m[a][1] != m[b][1]
    } by {
        assert(m[a][0] != m[b][0]);
        assert(c.contains(m[a]) && c.contains(m[b]));
        let wa = choose|w: int| 0 <= w < c.len() && c[w] == m[a];
        let wb = choose|w: int| 0 <= w < c.len() && c[w] == m[b];
        assert(wa != wb);
        if wa < wb {
            assert(c[wa][1] != c[wb][1]);
        } else {
            assert(c[wb][1] != c[wa][1]);
        }
    }
}

/// Keeps the first pair for each value of coordinate `k`, remembering the
/// values seen so far in a table of `bound` flags.
fn keep_first_per(pairs: &Vec<[usize; 2]>, k: usize, bound: usize) -> (out: Vec<[usize; 2]>)
    requires
        k < 2,
        forall|j: int| 0 <= j < pairs@.len() ==> (#[trigger] pairs@[j])[k as int] < bound,
    ensures
        out@ == first_per(pairs@, k as int),
{
    let mut seen: Vec<bool> = Vec::new();
    let mut v: usize = 0;
    while v < bound
        invariant
            v <= bound,
            seen@.len() == v,
            forall|u: int| 0 <= u < v ==> !(#[trigger] seen@[u]),
        decreases bound - v,
    {
        seen.push(false);
        v += 1;
    }
    let mut out: Vec<[usize; 2]> = Vec::new();
    let mut i: usize = 0;
    while i < pairs.len()
        invariant
            k < 2,
            i <= pairs.len(),
            seen@.len() == bound,
            forall|j: int| 0 <= j < pairs@.len() ==> (#[trigger] pairs@[j])[k as int] < bound,
            forall|u: int| 0 <= u < bound ==> (#[trigger] seen@[u] <==> exists|j: int|
                0 <= j < i && (#[trigger] pairs@[j])[k as int] == u),
            out@ == first_per(pairs@.subrange(0, i as int), k as int),
        decreases pairs.len() - i,
    {
        let ghost prefix = pairs@.subrange(0, i as int);
        let ghost next = pairs@.subrange(0, i + 1);
        assert(next.drop_last() == prefix);
        assert(next.last() == pairs@[i as int]);
        let pair = pairs[i];
        let key = pair[k];
        assert(key < bound);
        let ghost dup = exists|j: int| 0 <= j < next.len() - 1 && (#[trigger] next[j])[k as int] == next.last()[k as int];
        if seen[key] {
            assert(dup) by {
                let j = choose|j: int| 0 <= j < i && (#[trigger] pairs@[j])[k as int] == key;
                assert(next[j] == pairs@[j]);
            }
        } else {
            assert(!dup) by {
                if dup {
                    let j = choose|j: int| 0 <= j < next.len() - 1 && (#[trigger] next[j])[k as int] == next.last()[k as int];
                    assert(next[j] == pairs@[j]);
                }
            }
            out.push(pair);
            seen.set(key, true);
        }
        assert forall|u: int| 0 <= u < bound implies (#[trigger] seen@[u] <==> exists|j: int|
            0 <= j < i + 1 && (#[trigger] pairs@[j])[k as int] == u) by {
            if u == key {
                assert(pairs@[i as int][k as int] == u);
            }
        }
        i += 1;
    }
    assert(pairs@.subrange(0, pairs@.len() as int) == pairs@);
    out
}

/// Reduces candidate (image, catalog) pairs to a one-to-one matching: one
/// pair per catalog star (the first found), then one per image star (the
/// first found).
pub fn one_to_one_matches(pairs: &Vec<[usize; 2]>, num_image: usize, num_catalog: usize) -> (m: Vec<[usize; 2]>)
    requires
        forall|j: int| 0 <= j < pairs@.len() ==> (#[trigger] pairs@[j])[0] < num_image && pairs@[j][1] < num_catalog,
    ensures
        m@ == one_to_one(pairs@),
{
    let per_catalog = keep_first_per(pairs, 1, num_catalog);
    proof {
        lemma_first_per(pairs@, 1);
        assert forall|j: int| 0 <= j < per_catalog@.len() implies (#[trigger] per_catalog@[j])[0] < num_image by {
            assert(pairs@.contains(per_catalog@[j]));
        }
    }
    keep_first_per(&per_catalog, 0, num_image)
}

} // verus!
