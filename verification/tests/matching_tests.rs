use plate_solver::matching::{catalog_id, get_pattern_star_indices, one_to_one_matches, pattern_centroid_indices, CatalogTables};

fn empty_tables() -> CatalogTables {
    CatalogTables {
        pattern_catalog_u8: None,
        pattern_catalog_u16: None,
        pattern_catalog_u32: None,
        star_catalog_ids_u32: None,
        star_catalog_ids_u16: None,
    }
}

#[test]
fn pattern_indices_keep_order_below_limit() {
    assert_eq!(pattern_centroid_indices(&vec![0, 2, 7, 3, 9, 1], 4), vec![0, 2, 3, 1]);
    assert_eq!(pattern_centroid_indices(&vec![5, 6], 5), Vec::<usize>::new());
    assert_eq!(pattern_centroid_indices(&vec![], 10), Vec::<usize>::new());
}

#[test]
fn pattern_star_indices_by_width() {
    let mut db = empty_tables();
    assert_eq!(get_pattern_star_indices(&db, 7), [0, 0, 0, 0]);
    db.pattern_catalog_u32 = Some(vec![[100_000, 2, 3, 4], [5, 6, 7, 8]]);
    assert_eq!(get_pattern_star_indices(&db, 1), [5, 6, 7, 8]);
    assert_eq!(get_pattern_star_indices(&db, 0), [100_000, 2, 3, 4]);
    db.pattern_catalog_u16 = Some(vec![[1000, 1001, 1002, 65535]]);
    assert_eq!(get_pattern_star_indices(&db, 0), [1000, 1001, 1002, 65535]);
    // The narrowest catalog present is the one consulted.
    db.pattern_catalog_u8 = Some(vec![[1, 2, 3, 4], [250, 251, 252, 253]]);
    assert_eq!(get_pattern_star_indices(&db, 1), [250, 251, 252, 253]);
}

#[test]
fn catalog_ids_fall_back_to_row() {
    let mut db = empty_tables();
    assert_eq!(catalog_id(&db, 42), 42);
    db.star_catalog_ids_u16 = Some(vec![7, 8, 9]);
    assert_eq!(catalog_id(&db, 2), 9);
    db.star_catalog_ids_u32 = Some(vec![118_322, 5]);
    assert_eq!(catalog_id(&db, 0), 118_322);
}

#[test]
fn matches_are_deduplicated_first_found() {
    // Catalog star 0 is claimed by image stars 0 and 1; image star 1 then
    // keeps catalog star 1; image star 2 keeps catalog 2, whose second claim
    // (image 3) is dropped.
    let pairs = vec![[0, 0], [1, 0], [1, 1], [2, 2], [3, 2], [3, 3]];
    assert_eq!(one_to_one_matches(&pairs, 4, 4), vec![[0, 0], [1, 1], [2, 2], [3, 3]]);
    // Image star 0 claims catalog stars 1 and 2 first, so image star 1 loses
    // catalog star 2, and image star 0 keeps only its first claim.
    let pairs = vec![[0, 1], [0, 2], [1, 2]];
    assert_eq!(one_to_one_matches(&pairs, 2, 3), vec![[0, 1]]);
    let pairs = vec![[0, 1], [1, 2], [0, 2]];
    assert_eq!(one_to_one_matches(&pairs, 2, 3), vec![[0, 1], [1, 2]]);
    // Catalog dedup runs first: [1, 0] is dropped before image 1 could keep it.
    let pairs = vec![[0, 0], [1, 0]];
    assert_eq!(one_to_one_matches(&pairs, 2, 1), vec![[0, 0]]);
    assert!(one_to_one_matches(&vec![], 0, 0).is_empty());
}
