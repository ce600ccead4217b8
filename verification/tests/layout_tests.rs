use plate_solver::db_layout::{parse_header, parse_sections, Header, LayoutError, NativeLayout, PatternCatalogKind};

const MAGIC: [u8; 4] = *b"PSDB";

/// A small native database: two stars, three 16-bit catalog slots, and the
/// given key hashes and largest-edge bits.
fn sample_db(key_hashes: [u16; 3], edges: [u16; 3]) -> Vec<u8> {
    let mut d = Vec::new();
    d.extend_from_slice(&MAGIC);
    d.extend_from_slice(&1u32.to_le_bytes());
    d.extend_from_slice(&2u32.to_le_bytes());
    d.extend_from_slice(b"{}");
    d.extend_from_slice(&[0, 0]); // padding to 16
    d.extend_from_slice(&2u64.to_le_bytes());
    d.extend_from_slice(&[0u8; 48]);
    d.extend_from_slice(&3u64.to_le_bytes());
    d.push(2);
    for v in [1u16, 2, 3, 4, 500, 600, 700, 800, 9, 10, 11, 12] {
        d.extend_from_slice(&v.to_le_bytes());
    }
    d.extend_from_slice(&3u64.to_le_bytes());
    for v in edges {
        d.extend_from_slice(&v.to_le_bytes());
    }
    d.extend_from_slice(&3u64.to_le_bytes());
    for v in key_hashes {
        d.extend_from_slice(&v.to_le_bytes());
    }
    d.push(0);
    d
}

#[test]
fn header_is_located() {
    let d = sample_db([0, 0, 0], [0, 0, 0]);
    assert_eq!(parse_header(&d, &MAGIC, 1), Ok(Header { props_start: 12, props_len: 2, sections_start: 16 }));
}

#[test]
fn header_errors() {
    let d = sample_db([0, 0, 0], [0, 0, 0]);
    assert_eq!(parse_header(&d, b"XXXX", 1), Err(LayoutError::InvalidMagic));
    assert_eq!(parse_header(&d[..3], &MAGIC, 1), Err(LayoutError::InvalidMagic));
    assert_eq!(parse_header(&d[..6], &MAGIC, 1), Err(LayoutError::MissingVersion));
    assert_eq!(parse_header(&d, &MAGIC, 2), Err(LayoutError::UnsupportedVersion { found: 1, expected: 2 }));
    assert_eq!(parse_header(&d[..10], &MAGIC, 1), Err(LayoutError::MissingPropsLen));
    assert_eq!(parse_header(&d[..13], &MAGIC, 1), Err(LayoutError::PropsTooShort));
}

#[test]
fn sections_are_located() {
    let d = sample_db([0, 0, 0], [0, 0, 0]);
    let l = parse_sections(&d, 16).unwrap();
    assert_eq!(
        l,
        NativeLayout {
            star_table_offset: 24,
            star_table_count: 2,
            key_hashes_offset: 127,
            key_hashes_count: 3,
            largest_edge_offset: 113,
            largest_edge_count: 3,
            catalog_kind: PatternCatalogKind::U16,
            catalog_offset: 81,
            catalog_elem_size: 2,
            catalog_count: 3,
        }
    );
    assert_eq!(l.star_table_offset % 8, 0);
    assert_eq!(l.num_slots(), 3);
    assert_eq!(l.num_stars(), 2);
}

#[test]
fn section_errors() {
    let d = sample_db([0, 0, 0], [0, 0, 0]);
    assert_eq!(parse_sections(&d[..20], 16), Err(LayoutError::Truncated));
    assert_eq!(parse_sections(&d[..60], 16), Err(LayoutError::StarTableTruncated));
    assert_eq!(parse_sections(&d[..76], 16), Err(LayoutError::Truncated));
    assert_eq!(parse_sections(&d[..80], 16), Err(LayoutError::CatalogElemSizeMissing));
    assert_eq!(parse_sections(&d[..90], 16), Err(LayoutError::CatalogTruncated));
    assert_eq!(parse_sections(&d[..110], 16), Err(LayoutError::Truncated));
    assert_eq!(parse_sections(&d[..115], 16), Err(LayoutError::LargestEdgeTruncated));
    assert_eq!(parse_sections(&d[..125], 16), Err(LayoutError::Truncated));
    assert_eq!(parse_sections(&d[..130], 16), Err(LayoutError::KeyHashesTruncated));
    assert_eq!(parse_sections(&d[..133], 16), Err(LayoutError::IdsFlagMissing));
    let mut bad = d.clone();
    bad[80] = 3;
    bad.extend_from_slice(&[0u8; 40]);
    assert_eq!(parse_sections(&bad, 16), Err(LayoutError::InvalidCatalogElemSize { elem_size: 3 }));
}

#[test]
fn id_section_errors() {
    let mut d = sample_db([0, 0, 0], [0, 0, 0]);
    *d.last_mut().unwrap() = 1;
    assert_eq!(parse_sections(&d, 16), Err(LayoutError::IdsElemSizeMissing));
    d.push(4);
    assert_eq!(parse_sections(&d, 16), Err(LayoutError::Truncated));
    d.extend_from_slice(&2u64.to_le_bytes());
    assert_eq!(parse_sections(&d, 16), Err(LayoutError::IdsTruncated));
    d.extend_from_slice(&[7u8; 8]);
    assert!(parse_sections(&d, 16).is_ok());
}

#[test]
fn catalog_entries_widen() {
    let d = sample_db([0, 0, 0], [0, 0, 0]);
    let l = parse_sections(&d, 16).unwrap();
    assert_eq!(l.catalog_entry(&d, 0), Some([1, 2, 3, 4]));
    assert_eq!(l.catalog_entry(&d, 1), Some([500, 600, 700, 800]));
    assert_eq!(l.catalog_entry(&d, 2), Some([9, 10, 11, 12]));
    assert_eq!(l.catalog_entry(&d, 3), None);
}

#[test]
fn probing_stops_at_empty_slot() {
    let d = sample_db([0, 77, 77], [0, 5, 9]);
    let l = parse_sections(&d, 16).unwrap();
    assert_eq!(l.key_hash_at(&d, 1), 77);
    assert_eq!(l.largest_edge_bits_at(&d, 2), 9);
    assert_eq!(l.probe_candidates(&d, &[1, 2, 0, 1], 77), vec![1, 2]);
    assert_eq!(l.probe_candidates(&d, &[2, 1], 78), Vec::<usize>::new());
    // A slot with a zero hash but a non-zero edge is occupied.
    let d = sample_db([0, 77, 0], [3, 5, 0]);
    let l = parse_sections(&d, 16).unwrap();
    assert_eq!(l.probe_candidates(&d, &[0, 1, 2, 1], 77), vec![1]);
}

#[test]
fn star_table_layout_override() {
    let d = sample_db([0, 0, 0], [0, 0, 0]);
    let mut l = parse_sections(&d, 16).unwrap();
    l.set_star_table_layout_for_test(27, 1);
    assert_eq!(l.star_table_offset, 27);
    assert_eq!(l.num_stars(), 1);
    assert_eq!(l.catalog_offset, 81);
}
