//! Layout of the native binary pattern database, read in place from its bytes.
//!
//! The file is: 4 magic bytes; the format version (u32 LE); the length of the
//! properties JSON (u32 LE) and the JSON itself; zero padding to an 8-byte
//! boundary; then the star table (u64 LE count, 24 bytes per star), the
//! pattern catalog (u64 LE count, one element-size byte, 4 elements per
//! slot), the largest-edge table (u64 LE count, 2 bytes per slot), the
//! key-hash table (u64 LE count, 2 bytes per slot), and the optional
//! star-catalog-ID section (presence byte; if present, element-size byte,
//! u64 LE count and the IDs).

use vstd::prelude::*;

verus! {

/// Sections start on multiples of this many bytes.
pub const SECTION_ALIGNMENT: usize = 8;

/// Which element width the on-disk pattern catalog uses.
#[derive(Debug, Clone, Copy, PartialEq, Eq, Structural)]
pub enum PatternCatalogKind {
    U8,
    U16,
    U32,
}

/// Why the bytes are not a native database.
#[derive(Debug, Clone, Copy, PartialEq, Eq, Structural)]
pub enum LayoutError {
    InvalidMagic,
    MissingVersion,
    UnsupportedVersion { found: u32, expected: u32 },
    MissingPropsLen,
    PropsTooShort,
    /// A section count could not be read.
    Truncated,
    StarTableTruncated,
    CatalogElemSizeMissing,
    CatalogTruncated,
    InvalidCatalogElemSize { elem_size: u8 },
    LargestEdgeTruncated,
    KeyHashesTruncated,
    IdsFlagMissing,
    IdsElemSizeMissing,
    IdsTruncated,
}

/// Where the properties JSON and the sections lie.
#[derive(Debug, Clone, Copy, PartialEq, Eq, Structural)]
pub struct Header {
    /// Byte offset of the properties JSON.
    pub props_start: usize,
    /// Length of the properties JSON in bytes.
    pub props_len: usize,
    /// Byte offset of the first section (after the padding).
    pub sections_start: usize,
}

/// Byte offsets and element counts of the sections of a native database.
#[derive(Debug, Clone, Copy, PartialEq, Eq, Structural)]
pub struct NativeLayout {
    pub star_table_offset: usize,
    pub star_table_count: usize,
    pub key_hashes_offset: usize,
    pub key_hashes_count: usize,
    pub largest_edge_offset: usize,
    pub largest_edge_count: usize,
    pub catalog_kind: PatternCatalogKind,
    pub catalog_offset: usize,
    pub catalog_elem_size: usize,
    pub catalog_count: usize,
}

// ---------------------------------------------------------------------------
// Little-endian integers
// ---------------------------------------------------------------------------

/// The little-endian u16 at `pos`.
pub open spec fn u16_le(d: Seq<u8>, pos: int) -> int {
    d[pos] + 0x100 * d[pos + 1]
}

/// The little-endian u32 at `pos`.
pub open spec fn u32_le(d: Seq<u8>, pos: int) -> int {
    u16_le(d, pos) + 0x1_0000 * u16_le(d, pos + 2)
}

/// The little-endian u64 at `pos`.
pub open spec fn u64_le(d: Seq<u8>, pos: int) -> int {
    u32_le(d, pos) + 0x1_0000_0000 * u32_le(d, pos + 4)
}

fn read_u16_le(data: &[u8], pos: usize) -> (v: u16)
    requires
        pos + 2 <= data@.len(),
    ensures
        v == u16_le(data@, pos as int),
{
    (data[pos] as u16) + 0x100 * (data[pos + 1] as u16)
}

fn read_u32_le(data: &[u8], pos: usize) -> (v: u32)
    requires
        pos + 4 <= data@.len(),
    ensures
        v == u32_le(data@, pos as int),
{
    let _n = data.len();
    let lo = read_u16_le(data, pos);
    let hi = read_u16_le(data, pos + 2);
    (lo as u32) + 0x1_0000 * (hi as u32)
}

fn read_u64_le(data: &[u8], pos: usize) -> (v: u64)
    requires
        pos + 8 <= data@.len(),
    ensures
        v == u64_le(data@, pos as int),
{
    let _n = data.len();
    let lo = read_u32_le(data, pos);
    let hi = read_u32_le(data, pos + 4);
    (lo as u64) + 0x1_0000_0000 * (hi as u64)
}

// ---------------------------------------------------------------------------
// Header
// ---------------------------------------------------------------------------

/// `pos` rounded up to a multiple of `SECTION_ALIGNMENT`.
pub open spec fn align_up(pos: int) -> int {
    pos + (8 - pos % 8) % 8
}

/// The header of a native database: magic, version, and the properties
/// JSON's place; `expected_magic` and `expected_version` are the format's.
pub open spec fn header_layout(d: Seq<u8>, expected_magic: Seq<u8>, expected_version: u32) -> Result<Header, LayoutError> {
    if d.len() < 4 || d.subrange(0, 4) != expected_magic {
        Err(LayoutError::InvalidMagic)
    } else if d.len() < 8 {
        Err(LayoutError::MissingVersion)
    } else if u32_le(d, 4) != expected_version {
        Err(LayoutError::UnsupportedVersion { found: u32_le(d, 4) as u32, expected: expected_version })
    } else if d.len() < 12 {
        Err(LayoutError::MissingPropsLen)
    } else if d.len() < 12 + u32_le(d, 8) {
        Err(LayoutError::PropsTooShort)
    } else {
        Ok(Header {
            props_start: 12,
            props_len: u32_le(d, 8) as usize,
            sections_start: align_up(12 + u32_le(d, 8)) as usize,
        })
    }
}

/// Reads the header: checks the magic bytes and version and locates the
/// properties JSON and the first section.
pub fn parse_header(data: &[u8], expected_magic: &[u8; 4], expected_version: u32) -> (h: Result<Header, LayoutError>)
    requires
        // Rust never allocates more than isize::MAX bytes.
        data@.len() <= isize::MAX,
    ensures
        h == header_layout(data@, expected_magic@, expected_version),
        h matches Ok(hd) ==> hd.sections_start % 8 == 0 && hd.props_start + hd.props_len <= data@.len(),
        h matches Ok(hd) ==> {
            &&& hd.props_start == 12
            &&& hd.props_len == u32_le(data@, 8)
            &&& hd.props_start + hd.props_len <= hd.sections_start < hd.props_start + hd.props_len + 8
        },
{
    proof {
        sections_start_at_first_boundary(data@, expected_magic@, expected_version);
    }
    let n = data.len();
    if n < 4 || data[0] != expected_magic[0] || data[1] != expected_magic[1] || data[2] != expected_magic[2]
        || data[3] != expected_magic[3] {
        proof {
            if n >= 4 && data@.subrange(0, 4) == expected_magic@ {
                assert(data@.subrange(0, 4)[0] == data@[0]);
                assert(data@.subrange(0, 4)[1] == data@[1]);
                assert(data@.subrange(0, 4)[2] == data@[2]);
                assert(data@.subrange(0, 4)[3] == data@[3]);
            }
        }
        return Err(LayoutError::InvalidMagic);
    }
    assert(data@.subrange(0, 4) =~= expected_magic@);
    if n < 8 {
        return Err(LayoutError::MissingVersion);
    }
    let version = read_u32_le(data, 4);
    if version != expected_version {
        return Err(LayoutError::UnsupportedVersion { found: version, expected: expected_version });
    }
    if n < 12 {
        return Err(LayoutError::MissingPropsLen);
    }
    let props_len = read_u32_le(data, 8) as usize;
    if n - 12 < props_len {
        return Err(LayoutError::PropsTooShort);
    }
    let end = 12 + props_len;
    let padding = (SECTION_ALIGNMENT - end % SECTION_ALIGNMENT) % SECTION_ALIGNMENT;
    assert(end + padding <= end + 7);
    Ok(Header { props_start: 12, props_len, sections_start: end + padding })
}


// ---------------------------------------------------------------------------
// Sections
// ---------------------------------------------------------------------------

/// The section layout starting at byte `pos`, or the first thing wrong with it.
pub open spec fn sections_layout(d: Seq<u8>, pos: int) -> Result<NativeLayout, LayoutError> {
    let n = d.len() as int;
    let stars = u64_le(d, pos);
    let p1 = pos + 8 + stars * 24;
    let cat_count = u64_le(d, p1);
    let es = d[p1 + 8];
    let p2 = p1 + 9 + cat_count * 4 * es;
    let le_count = u64_le(d, p2);
    let p3 = p2 + 8 + le_count * 2;
    let kh_count = u64_le(d, p3);
    let p4 = p3 + 8 + kh_count * 2;
    let present = d[p4];
    let ids_es = d[p4 + 1];
    let ids_count = u64_le(d, p4 + 2);
    if n < pos + 8 {
        Err(LayoutError::Truncated)
    } else if n < p1 {
        Err(LayoutError::StarTableTruncated)
    } else if n < p1 + 8 {
        Err(LayoutError::Truncated)
    } else if n < p1 + 9 {
        Err(LayoutError::CatalogElemSizeMissing)
    } else if n < p2 {
        Err(LayoutError::CatalogTruncated)
    } else if es != 1 && es != 2 && es != 4 {
        Err(LayoutError::InvalidCatalogElemSize { elem_size: es })
    } else if n < p2 + 8 {
        Err(LayoutError::Truncated)
    } else if n < p3 {
        Err(LayoutError::LargestEdgeTruncated)
    } else if n < p3 + 8 {
        Err(LayoutError::Truncated)
    } else if n < p4 {
        Err(LayoutError::KeyHashesTruncated)
    } else if n < p4 + 1 {
        Err(LayoutError::IdsFlagMissing)
    } else if present != 0 && n < p4 + 2 {
        Err(LayoutError::IdsElemSizeMissing)
    } else if present != 0 && n < p4 + 10 {
        Err(LayoutError::Truncated)
    } else if present != 0 && n < p4 + 10 + ids_count * ids_es {
        Err(LayoutError::IdsTruncated)
    } else {
        Ok(NativeLayout {
            star_table_offset: (pos + 8) as usize,
            star_table_count: stars as usize,
            key_hashes_offset: (p3 + 8) as usize,
            key_hashes_count: kh_count as usize,
            largest_edge_offset: (p2 + 8) as usize,
            largest_edge_count: le_count as usize,
            catalog_kind: if es == 1 {
                PatternCatalogKind::U8
            } else if es == 2 {
                PatternCatalogKind::U16
            } else {
                PatternCatalogKind::U32
            },
            catalog_offset: (p1 + 9) as usize,
            catalog_elem_size: es as usize,
            catalog_count: cat_count as usize,
        })
    }
}

/// Every section of `l` lies inside `n` bytes, the sections follow each
/// other (each after its count field), and the catalog kind matches its
/// element size.
pub open spec fn layout_fits(l: NativeLayout, n: int) -> bool {
    &&& l.star_table_offset + 24 * l.star_table_count + 9 == l.catalog_offset
    &&& l.catalog_offset + l.catalog_count * 4 * l.catalog_elem_size + 8 == l.largest_edge_offset
    &&& l.largest_edge_offset + 2 * l.largest_edge_count + 8 == l.key_hashes_offset
    &&& l.key_hashes_offset + 2 * l.key_hashes_count <= n
    &&& l.star_table_offset >= 8
    &&& l.catalog_kind == (if l.catalog_elem_size == 1 {
        PatternCatalogKind::U8
    } else if l.catalog_elem_size == 2 {
        PatternCatalogKind::U16
    } else {
        PatternCatalogKind::U32
    })
    &&& (l.catalog_elem_size == 1 || l.catalog_elem_size == 2 || l.catalog_elem_size == 4)
}

proof fn lemma_product_bound(a: int, b: int, c: int, bound_a: int, bound_b: int, bound_c: int)
    by (nonlinear_arith)
    requires
        0 <= a <= bound_a,
        0 <= b <= bound_b,
        0 <= c <= bound_c,
    ensures
        0 <= a * b * c <= bound_a * bound_b * bound_c,
{
}

/// Reads the section layout starting at byte `pos` (the header's
/// `sections_start`).
#[verifier::rlimit(40)]
#[verifier::spinoff_prover]
pub fn parse_sections(data: &[u8], pos: usize) -> (r: Result<NativeLayout, LayoutError>)
    requires
        // Rust never allocates more than isize::MAX bytes.
        data@.len() <= isize::MAX,
    ensures
        r == sections_layout(data@, pos as int),
        r matches Ok(l) ==> layout_fits(l, data@.len() as int),
        r matches Ok(l) ==> (pos % 8 == 0 ==> l.star_table_offset % 8 == 0),
{
    let ghost d = data@;
    let n = data.len() as u128;
    let p0 = pos as u128;
    if n < p0 + 8 {
        return Err(LayoutError::Truncated);
    }
    let stars = read_u64_le(data, pos) as u128;
    let p1 = p0 + 8 + stars * 24;
    if n < p1 {
        return Err(LayoutError::StarTableTruncated);
    }
    if n < p1 + 8 {
        return Err(LayoutError::Truncated);
    }
    let cat_count = read_u64_le(data, p1 as usize) as u128;
    if n < p1 + 9 {
        return Err(LayoutError::CatalogElemSizeMissing);
    }
    let es = data[(p1 + 8) as usize];
    proof {
        lemma_product_bound(cat_count as int, 4, es as int, u64::MAX as int, 4, 255);
    }
    let p2 = p1 + 9 + cat_count * 4 * (es as u128);
    if n < p2 {
        return Err(LayoutError::CatalogTruncated);
    }
    if es != 1 && es != 2 && es != 4 {
        return Err(LayoutError::InvalidCatalogElemSize { elem_size: es });
    }
    if n < p2 + 8 {
        return Err(LayoutError::Truncated);
    }
    let le_count = read_u64_le(data, p2 as usize) as u128;
    let p3 = p2 + 8 + le_count * 2;
    if n < p3 {
        return Err(LayoutError::LargestEdgeTruncated);
    }
    if n < p3 + 8 {
        return Err(LayoutError::Truncated);
    }
    let kh_count = read_u64_le(data, p3 as usize) as u128;
    let p4 = p3 + 8 + kh_count * 2;
    if n < p4 {
        return Err(LayoutError::KeyHashesTruncated);
    }
    if n < p4 + 1 {
        return Err(LayoutError::IdsFlagMissing);
    }
    let present = data[p4 as usize];
    if present != 0 {
        if n < p4 + 2 {
            return Err(LayoutError::IdsElemSizeMissing);
        }
        let ids_es = data[(p4 + 1) as usize];
        if n < p4 + 10 {
            return Err(LayoutError::Truncated);
        }
        let ids_count = read_u64_le(data, (p4 + 2) as usize) as u128;
        proof {
            lemma_product_bound(ids_count as int, 1, ids_es as int, u64::MAX as int, 1, 255);
        }
        if n < p4 + 10 + ids_count * (ids_es as u128) {
            return Err(LayoutError::IdsTruncated);
        }
    }
    let catalog_kind = if es == 1 {
        PatternCatalogKind::U8
    } else if es == 2 {
        PatternCatalogKind::U16
    } else {
        PatternCatalogKind::U32
    };
    Ok(NativeLayout {
        star_table_offset: (p0 + 8) as usize,
        star_table_count: stars as usize,
        key_hashes_offset: (p3 + 8) as usize,
        key_hashes_count: kh_count as usize,
        largest_edge_offset: (p2 + 8) as usize,
        largest_edge_count: le_count as usize,
        catalog_kind,
        catalog_offset: (p1 + 9) as usize,
        catalog_elem_size: es as usize,
        catalog_count: cat_count as usize,
    })
}


// ---------------------------------------------------------------------------
// Reading the sections in place
// ---------------------------------------------------------------------------

/// The catalog element of size `es` at byte `pos`.
pub open spec fn catalog_value(d: Seq<u8>, pos: int, es: int) -> int {
    if es == 1 {
        d[pos] as int
    } else if es == 2 {
        u16_le(d, pos)
    } else {
        u32_le(d, pos)
    }
}

/// The stored 16-bit key hash of `slot`.
pub open spec fn key_hash_of(l: NativeLayout, d: Seq<u8>, slot: int) -> int {
    u16_le(d, l.key_hashes_offset + 2 * slot)
}

/// The raw bits of the stored (half-precision) largest edge of `slot`.
pub open spec fn largest_edge_bits_of(l: NativeLayout, d: Seq<u8>, slot: int) -> int {
    u16_le(d, l.largest_edge_offset + 2 * slot)
}

/// The candidate slots of a probe sequence: the probe stops at the first
/// empty slot (key hash and largest-edge bits both zero) and keeps the slots
/// whose key hash equals `low16`, in probe order.
pub open spec fn probe_candidates(l: NativeLayout, d: Seq<u8>, probe: Seq<usize>, k: nat, low16: u16) -> Seq<usize>
    decreases probe.len() - k,
{
    if k >= probe.len() {
        Seq::empty()
    } else {
        let slot = probe[k as int] as int;
        if key_hash_of(l, d, slot) == 0 && largest_edge_bits_of(l, d, slot) == 0 {
            Seq::empty()
        } else if key_hash_of(l, d, slot) != low16 {
            probe_candidates(l, d, probe, k + 1, low16)
        } else {
            seq![probe[k as int]] + probe_candidates(l, d, probe, k + 1, low16)
        }
    }
}

impl NativeLayout {
    /// Number of hash-table slots.
    pub fn num_slots(&self) -> (n: usize)
        ensures
            n == self.catalog_count,
    {
        self.catalog_count
    }

    /// Number of stars.
    pub fn num_stars(&self) -> (n: usize)
        ensures
            n == self.star_table_count,
    {
        self.star_table_count
    }

    /// Replaces the star table's place (for exercising the alignment check).
    pub fn set_star_table_layout_for_test(&mut self, offset: usize, count: usize)
        ensures
            *final(self) == (NativeLayout { star_table_offset: offset, star_table_count: count, ..*old(self) }),
    {
        self.star_table_offset = offset;
        self.star_table_count = count;
    }

    /// The catalog entry at `slot` widened to `u32`s; `None` for slots out of
    /// range (or an element size other than 1, 2 or 4 bytes).
    pub fn catalog_entry(&self, data: &[u8], slot: usize) -> (e: Option<[u32; 4]>)
        requires
            self.catalog_offset + self.catalog_count * 4 * self.catalog_elem_size <= data@.len(),
        ensures
            e is None <==> (slot >= self.catalog_count || (self.catalog_elem_size != 1
                && self.catalog_elem_size != 2 && self.catalog_elem_size != 4)),
            e matches Some(row) ==> forall|k: int| 0 <= k < 4 ==> #[trigger] row[k] == catalog_value(
                data@,
                self.catalog_offset + slot * 4 * self.catalog_elem_size + k * self.catalog_elem_size,
                self.catalog_elem_size as int,
            ),
    {
        let _n = data.len();
        if slot >= self.catalog_count {
            return None;
        }
        let es = self.catalog_elem_size;
        if es != 1 && es != 2 && es != 4 {
            return None;
        }
        proof {
            assert((slot as int) * 4 * (es as int) + 4 * (es as int) <= (self.catalog_count as int) * 4 * (es as int)) by (nonlinear_arith)
                requires
                    slot < self.catalog_count,
                    0 < es,
            ;
        }
        let row_start = self.catalog_offset + slot * 4 * es;
        let row = if es == 1 {
            [data[row_start] as u32, data[row_start + 1] as u32, data[row_start + 2] as u32, data[row_start + 3] as u32]
        } else if es == 2 {
            [
                read_u16_le(data, row_start) as u32,
                read_u16_le(data, row_start + 2) as u32,
                read_u16_le(data, row_start + 4) as u32,
                read_u16_le(data, row_start + 6) as u32,
            ]
        } else {
            [
                read_u32_le(data, row_start),
                read_u32_le(data, row_start + 4),
                read_u32_le(data, row_start + 8),
                read_u32_le(data, row_start + 12),
            ]
        };
        assert forall|k: int| 0 <= k < 4 implies #[trigger] row[k] == catalog_value(
            data@,
            self.catalog_offset + slot * 4 * self.catalog_elem_size + k * self.catalog_elem_size,
            self.catalog_elem_size as int,
        ) by {
            assert(row_start == self.catalog_offset + slot * 4 * self.catalog_elem_size);
        }
        Some(row)
    }

    /// The stored 16-bit key hash of `slot`.
    pub fn key_hash_at(&self, data: &[u8], slot: usize) -> (h: u16)
        requires
            slot < self.key_hashes_count,
            self.key_hashes_offset + 2 * self.key_hashes_count <= data@.len(),
        ensures
            h == key_hash_of(*self, data@, slot as int),
    {
        let _n = data.len();
        read_u16_le(data, self.key_hashes_offset + 2 * slot)
    }

    /// The raw bits of the stored (half-precision) largest edge of `slot`.
    pub fn largest_edge_bits_at(&self, data: &[u8], slot: usize) -> (b: u16)
        requires
            slot < self.largest_edge_count,
            self.largest_edge_offset + 2 * self.largest_edge_count <= data@.len(),
        ensures
            b == largest_edge_bits_of(*self, data@, slot as int),
    {
        let _n = data.len();
        read_u16_le(data, self.largest_edge_offset + 2 * slot)
    }

    /// Walks a probe sequence of hash-table slots: stops at the first empty
    /// slot and keeps, in order, the slots whose stored key hash is `low16`.
    pub fn probe_candidates(&self, data: &[u8], probe: &[usize], low16: u16) -> (slots: Vec<usize>)
        requires
            self.key_hashes_offset + 2 * self.key_hashes_count <= data@.len(),
            self.largest_edge_offset + 2 * self.largest_edge_count <= data@.len(),
            forall|k: int| 0 <= k < probe@.len() ==> (#[trigger] probe@[k]) < self.key_hashes_count
                && probe@[k] < self.largest_edge_count,
        ensures
            slots@ == probe_candidates(*self, data@, probe@, 0, low16),
    {
        let mut out: Vec<usize> = Vec::new();
        let mut k: usize = 0;
        let mut stop = false;
        while k < probe.len() && !stop
            invariant
                self.key_hashes_offset + 2 * self.key_hashes_count <= data@.len(),
                self.largest_edge_offset + 2 * self.largest_edge_count <= data@.len(),
                forall|j: int| 0 <= j < probe@.len() ==> (#[trigger] probe@[j]) < self.key_hashes_count
                    && probe@[j] < self.largest_edge_count,
                k <= probe@.len(),
                stop ==> out@ == probe_candidates(*self, data@, probe@, 0, low16),
                !stop ==> out@ + probe_candidates(*self, data@, probe@, k as nat, low16)
                    == probe_candidates(*self, data@, probe@, 0, low16),
            decreases probe@.len() - k, (if stop { 0int } else { 1int }),
        {
            let slot = probe[k];
            let kh = self.key_hash_at(data, slot);
            if kh == 0 && self.largest_edge_bits_at(data, slot) == 0 {
                assert(out@ =~= out@ + Seq::<usize>::empty());
                stop = true;
            } else {
                if kh == low16 {
                    let ghost before = out@;
                    out.push(slot);
                    assert(before + probe_candidates(*self, data@, probe@, k as nat, low16) =~= out@
                        + probe_candidates(*self, data@, probe@, (k + 1) as nat, low16));
                }
                k += 1;
            }
        }
        if !stop {
            assert(out@ =~= out@ + probe_candidates(*self, data@, probe@, k as nat, low16));
        }
        out
    }
}

/// A database whose header and sections parse has its star table on an
/// 8-byte boundary, so the table can be viewed as rows of `f32` in place.
pub proof fn star_table_is_aligned(d: Seq<u8>, expected_magic: Seq<u8>, expected_version: u32)
    requires
        // Rust never allocates more than isize::MAX bytes.
        d.len() <= isize::MAX,
        header_layout(d, expected_magic, expected_version) is Ok,
        sections_layout(d, header_layout(d, expected_magic, expected_version)->Ok_0.sections_start as int) is Ok,
    ensures
        sections_layout(d, header_layout(d, expected_magic, expected_version)->Ok_0.sections_start as int)->Ok_0.star_table_offset % 8 == 0,
{
    let h = header_layout(d, expected_magic, expected_version)->Ok_0;
    let end = 12 + u32_le(d, 8);
    assert(u32_le(d, 8) >= 0) by {
        assert(d[8] >= 0 && d[9] >= 0 && d[10] >= 0 && d[11] >= 0);
    }
    assert(align_up(end) % 8 == 0);
    assert(align_up(end) <= d.len() + 7);
    assert(h.sections_start == align_up(end));
    let l = sections_layout(d, h.sections_start as int)->Ok_0;
    assert(d.len() >= h.sections_start + 8);
    assert(l.star_table_offset == h.sections_start + 8);
}

/// The properties JSON follows the 12 header bytes, and the sections start
/// at the first multiple of 8 at or after its end: at most 7 bytes of
/// padding, none when the JSON already ends on a boundary.
pub proof fn sections_start_at_first_boundary(d: Seq<u8>, expected_magic: Seq<u8>, expected_version: u32)
    requires
        d.len() <= isize::MAX,
    ensures
        header_layout(d, expected_magic, expected_version) matches Ok(h) ==> {
            &&& h.props_start == 12
            &&& h.props_len == u32_le(d, 8)
            &&& h.sections_start % 8 == 0
            &&& h.props_start + h.props_len <= h.sections_start < h.props_start + h.props_len + 8
            &&& (h.props_start + h.props_len) % 8 == 0 ==> h.sections_start == h.props_start + h.props_len
        },
{
    if header_layout(d, expected_magic, expected_version) is Ok {
        let end = 12 + u32_le(d, 8);
        assert(u32_le(d, 8) >= 0 && u32_le(d, 8) <= u32::MAX) by {
            assert(0 <= d[8] <= 255 && 0 <= d[9] <= 255 && 0 <= d[10] <= 255 && 0 <= d[11] <= 255);
        }
        assert(end <= d.len());
        assert(end <= align_up(end) < end + 8);
        assert(align_up(end) % 8 == 0);
    }
}

} // verus!
