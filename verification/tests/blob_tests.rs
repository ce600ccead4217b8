use plate_solver::blob::{form_blobs_from_candidates, CandidateFrom1D};
use plate_solver::gray_image::{perimeter_pixels, pixels_in_roi, GrayImage, Rect};

#[test]
fn test_form_blobs_single_candidate() {
    let candidates = vec![CandidateFrom1D { x: 10, y: 5 }];
    let blobs = form_blobs_from_candidates(candidates, 10);
    assert_eq!(blobs.len(), 1);
    assert_eq!(blobs[0].candidates.len(), 1);
}

#[test]
fn test_form_blobs_merge_adjacent() {
    // Two candidates in adjacent rows, same x -> should merge.
    let candidates = vec![
        CandidateFrom1D { x: 10, y: 5 },
        CandidateFrom1D { x: 10, y: 6 },
    ];
    let blobs = form_blobs_from_candidates(candidates, 10);
    assert_eq!(blobs.len(), 1);
    assert_eq!(blobs[0].candidates.len(), 2);
}

#[test]
fn test_form_blobs_no_merge_far_apart() {
    // Two candidates far apart horizontally -> should not merge.
    let candidates = vec![
        CandidateFrom1D { x: 10, y: 5 },
        CandidateFrom1D { x: 20, y: 6 },
    ];
    let blobs = form_blobs_from_candidates(candidates, 10);
    assert_eq!(blobs.len(), 2);
}

#[test]
fn test_form_blobs_merge_within_tolerance() {
    // Candidates within x-distance of 3 should merge.
    let candidates = vec![
        CandidateFrom1D { x: 10, y: 5 },
        CandidateFrom1D { x: 13, y: 6 }, // exactly at boundary
    ];
    let blobs = form_blobs_from_candidates(candidates, 10);
    assert_eq!(blobs.len(), 1);
    assert_eq!(blobs[0].candidates.len(), 2);
}

#[test]
fn test_form_blobs_no_merge_just_outside() {
    // Candidates at x-distance of 4 should not merge.
    let candidates = vec![
        CandidateFrom1D { x: 10, y: 5 },
        CandidateFrom1D { x: 14, y: 6 }, // just outside boundary
    ];
    let blobs = form_blobs_from_candidates(candidates, 10);
    assert_eq!(blobs.len(), 2);
}


#[test]
fn test_for_each_pixel_in_roi_1x1() {
    let image = GrayImage::from_raw(1, 1, vec![127u8]).unwrap();
    let pixels = pixels_in_roi(&image, &Rect::new(0, 0, 1, 1));
    assert_eq!(pixels, vec![(0, 0, 127)]);
}

#[test]
fn test_for_each_pixel_in_roi_3x3() {
    let image = GrayImage::from_raw(3, 3, vec![0, 1, 2, 127, 253, 254, 255, 0, 1]).unwrap();
    let pixels = pixels_in_roi(&image, &Rect::new(0, 0, 3, 3));
    assert_eq!(
        pixels,
        vec![
            (0, 0, 0),
            (1, 0, 1),
            (2, 0, 2),
            (0, 1, 127),
            (1, 1, 253),
            (2, 1, 254),
            (0, 2, 255),
            (1, 2, 0),
            (2, 2, 1),
        ]
    );
}

#[test]
fn test_for_each_perimeter_pixel_3x3() {
    let image = GrayImage::from_raw(3, 3, vec![0, 1, 2, 127, 253, 254, 255, 0, 1]).unwrap();
    let pixels = perimeter_pixels(&image, &Rect::new(0, 0, 3, 3));
    assert_eq!(
        pixels,
        vec![
            (0, 0, 0),
            (1, 0, 1),
            (2, 0, 2),
            (0, 1, 127),
            (2, 1, 254),
            (0, 2, 255),
            (1, 2, 0),
            (2, 2, 1),
        ]
    );
}

#[test]
fn blobs_follow_chains_across_rows() {
    let c0 = CandidateFrom1D { x: 10, y: 5 };
    let c1 = CandidateFrom1D { x: 11, y: 6 };
    let c2 = CandidateFrom1D { x: 12, y: 7 };
    let c3 = CandidateFrom1D { x: 30, y: 5 };
    let blobs = form_blobs_from_candidates(vec![c0, c1, c2, c3], 7);
    assert_eq!(blobs.len(), 2);
    // Each lower candidate absorbs the blob above it.
    assert_eq!(blobs[0].candidates, vec![c2, c1, c0]);
    assert_eq!(blobs[1].candidates, vec![c3]);
    assert!(blobs.iter().all(|b| b.recipient_blob.is_none()));
}

#[test]
fn blobs_join_two_branches() {
    // Two upper candidates both touch the one below: one blob of three.
    let c0 = CandidateFrom1D { x: 5, y: 2 };
    let c1 = CandidateFrom1D { x: 9, y: 2 };
    let c2 = CandidateFrom1D { x: 7, y: 3 };
    let blobs = form_blobs_from_candidates(vec![c0, c1, c2], 3);
    assert_eq!(blobs.len(), 1);
    assert_eq!(blobs[0].candidates, vec![c2, c0, c1]);
    // No candidates at all: no blobs.
    assert!(form_blobs_from_candidates(vec![], 0).is_empty());
}
