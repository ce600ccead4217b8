use plate_solver::blob::{Blob, CandidateFrom1D};
use plate_solver::detect::{check_binning, gate_size_limit, reject_hot_candidates, DetectError};
use plate_solver::gate::{
    gate_star_shape, higher_res_margin, locate_peak_1d, projections, saturation_and_peak, sum_pixels, PeakCoord1D,
};
use plate_solver::gray_image::{perimeter_pixels, pixels_in_roi, GrayImage, Rect};

/// Sub-pixel peak position, refined from the integer location the way the
/// detector does it.
fn refine(pk: PeakCoord1D) -> f64 {
    match pk {
        PeakCoord1D::Run { start, len } => start as f64 + (len as f64 - 1.0) / 2.0,
        PeakCoord1D::Edge { index } => index as f64,
        PeakCoord1D::Interpolate { index, left, center, right } => {
            let (a, b, c) = (left as f64, center as f64, right as f64);
            let denom = a - 2.0 * b + c;
            if denom.abs() < 1e-12 {
                index as f64
            } else {
                let p = (0.5 * (a - c) / denom).clamp(-0.5, 0.5);
                index as f64 + p
            }
        }
    }
}

#[test]
fn test_peak_coord_1d_single_peak() {
    let values = vec![10, 50, 100, 200, 100, 50, 10];
    let pk = locate_peak_1d(&values);
    assert_eq!(pk, PeakCoord1D::Interpolate { index: 3, left: 100, center: 200, right: 100 });
    let result = refine(pk);
    assert!((result - 3.0).abs() < 1e-9);
}

#[test]
fn test_peak_coord_1d_offset_peak() {
    let values = vec![10, 80, 200, 150, 10];
    let pk = locate_peak_1d(&values);
    assert_eq!(pk, PeakCoord1D::Interpolate { index: 2, left: 80, center: 200, right: 150 });
    let result = refine(pk);
    let expected = 2.0 + 0.5 * (80.0 - 150.0) / (80.0 - 400.0 + 150.0);
    assert!((result - expected).abs() < 1e-9);
}

#[test]
fn test_peak_coord_1d_run_of_peaks() {
    let values = vec![10, 200, 200, 200, 10];
    let pk = locate_peak_1d(&values);
    assert_eq!(pk, PeakCoord1D::Run { start: 1, len: 3 });
    let result = refine(pk);
    assert!((result - 2.0).abs() < 1e-9);
}

#[test]
fn test_peak_coord_1d_edge_peak() {
    let values = vec![200, 100, 50, 10];
    let pk = locate_peak_1d(&values);
    assert_eq!(pk, PeakCoord1D::Edge { index: 0 });
    let result = refine(pk);
    assert!((result - 0.0).abs() < 1e-9);
}

#[test]
fn test_peak_coord_1d_flat_region_no_panic() {
    let values = vec![42u32, 42, 42, 42, 42];
    let pk = locate_peak_1d(&values);
    assert_eq!(pk, PeakCoord1D::Run { start: 0, len: 5 });
    let result = refine(pk);
    assert!((result - 2.0).abs() < 1e-9);
}

#[test]
fn test_peak_coord_1d_flat_neighbors_no_panic() {
    let values = vec![10u32, 100, 98, 10];
    let pk = locate_peak_1d(&values);
    assert_eq!(pk, PeakCoord1D::Interpolate { index: 1, left: 10, center: 100, right: 98 });
    let result = refine(pk);
    let expected = 1.0 + (0.5 * (10.0 - 98.0) / (10.0 - 200.0 + 98.0));
    assert!((result - expected).abs() < 1e-9);
}

#[test]
fn peak_at_last_position_is_an_edge() {
    assert_eq!(locate_peak_1d(&vec![1, 2, 3, 9]), PeakCoord1D::Edge { index: 3 });
    assert_eq!(locate_peak_1d(&vec![7]), PeakCoord1D::Edge { index: 0 });
    // The first maximum wins, and a run is only counted where it starts.
    assert_eq!(locate_peak_1d(&vec![5, 9, 1, 9, 9]), PeakCoord1D::Interpolate { index: 1, left: 5, center: 9, right: 1 });
    assert_eq!(locate_peak_1d(&vec![9, 9, 1, 9, 9, 9]), PeakCoord1D::Run { start: 0, len: 2 });
}

#[test]
fn test_gate_star_2d_reject_too_close_to_edge() {
    let candidates = vec![CandidateFrom1D { x: 3, y: 3 }];
    let blob = Blob { candidates, recipient_blob: None };
    let image = GrayImage::from_raw(20, 20, vec![50u8; 400]).unwrap();
    let result = gate_star_shape(&blob, &image, 100, 100);
    assert!(result.is_none());
}

#[test]
fn test_gate_star_2d_reject_too_large() {
    let candidates = vec![CandidateFrom1D { x: 10, y: 10 }, CandidateFrom1D { x: 20, y: 10 }];
    let blob = Blob { candidates, recipient_blob: None };
    let image = GrayImage::from_raw(100, 100, vec![50u8; 10000]).unwrap();
    let result = gate_star_shape(&blob, &image, 5, 5);
    assert!(result.is_none(), "core width 11 > max_width 5");
}

#[test]
fn gate_rejects_spot_touching_the_border() {
    // A bright spot at x = 2: the perimeter box would start at column -1.
    let mut pixels = vec![10u8; 20 * 20];
    pixels[10 * 20 + 2] = 200;
    let image = GrayImage::from_raw(20, 20, pixels).unwrap();
    let blob = Blob { candidates: vec![CandidateFrom1D { x: 2, y: 10 }], recipient_blob: None };
    assert!(gate_star_shape(&blob, &image, 10, 10).is_none());
}

#[test]
fn gate_accepts_isolated_bright_spot() {
    let mut pixels = vec![10u8; 20 * 20];
    pixels[10 * 20 + 10] = 200;
    let image = GrayImage::from_raw(20, 20, pixels).unwrap();
    let blob = Blob { candidates: vec![CandidateFrom1D { x: 10, y: 10 }], recipient_blob: None };
    let g = gate_star_shape(&blob, &image, 10, 10).expect("isolated spot passes");
    assert_eq!(g.core, Rect::new(10, 10, 1, 1));
    assert_eq!(g.margin, Rect::new(8, 8, 5, 5));
    assert_eq!(g.perimeter, Rect::new(7, 7, 7, 7));
    assert_eq!((g.core_sum, g.core_count), (200, 1));
    // The 7x7 perimeter box has a border of 24 background pixels.
    assert_eq!((g.perimeter_sum, g.perimeter_count), (240, 24));
    assert_eq!((g.perimeter_min, g.perimeter_max), (10, 10));
}

#[test]
fn test_compute_brightness_basic() {
    let mut pixels = vec![20u8; 7 * 7];
    for y in 1..=5 {
        for x in 1..=5 {
            pixels[y * 7 + x] = 100;
        }
    }
    let image = GrayImage::from_raw(7, 7, pixels).unwrap();
    let box_rect = Rect::new(0, 0, 7, 7);
    let border = perimeter_pixels(&image, &box_rect);
    let background_est = sum_pixels(&border) as f64 / border.len() as f64;
    let inset = pixels_in_roi(&image, &Rect::new(1, 1, 5, 5));
    let (num_saturated, peak_value) = saturation_and_peak(&inset);
    let brightness = f64::max(
        inset.iter().map(|&(_, _, v)| v as f64 - background_est).sum::<f64>(),
        0.0,
    );
    assert_eq!(peak_value, 100);
    assert_eq!(num_saturated, 0);
    assert!(brightness > 0.0);
}

#[test]
fn saturation_counts_full_pixels() {
    let px = vec![(0, 0, 255u8), (1, 0, 3), (2, 0, 255), (3, 0, 254)];
    assert_eq!(saturation_and_peak(&px), (2, 255));
    assert_eq!(saturation_and_peak(&vec![]), (0, 0));
}

#[test]
fn projections_sum_columns_and_rows() {
    // 3x2 image: rows [1 2 3] and [4 5 6].
    let image = GrayImage::from_raw(3, 2, vec![1, 2, 3, 4, 5, 6]).unwrap();
    let (cols, rows) = projections(&image, &Rect::new(0, 0, 3, 2));
    assert_eq!(cols, vec![5, 7, 9]);
    assert_eq!(rows, vec![6, 15]);
    let (cols, rows) = projections(&image, &Rect::new(1, 1, 2, 1));
    assert_eq!(cols, vec![5, 6]);
    assert_eq!(rows, vec![11]);
}

#[test]
fn binning_checks() {
    assert_eq!(check_binning(1, false), Ok(()));
    assert_eq!(check_binning(1, true), Err(DetectError::BinnedImageWithoutBinning));
    assert_eq!(check_binning(2, true), Ok(()));
    assert_eq!(check_binning(4, false), Ok(()));
    assert_eq!(check_binning(8, true), Ok(()));
    assert_eq!(check_binning(3, false), Err(DetectError::InvalidBinning { binning: 3 }));
    assert_eq!(check_binning(0, true), Err(DetectError::InvalidBinning { binning: 0 }));
}

#[test]
fn gate_size_limit_per_binning() {
    assert_eq!(gate_size_limit(1920, 1), 19);
    assert_eq!(gate_size_limit(1920, 2), 10);
    assert_eq!(gate_size_limit(1920, 4), 5);
    assert_eq!(gate_size_limit(1920, 8), 3);
    assert_eq!(gate_size_limit(99, 1), 0);
    assert_eq!(gate_size_limit(99, 2), 1);
}

#[test]
fn hot_pixel_rejection() {
    let c = vec![
        CandidateFrom1D { x: 1, y: 4 },
        CandidateFrom1D { x: 2, y: 9 },
        CandidateFrom1D { x: 3, y: 7 },
    ];
    let hot = vec![false, true, false];
    let (kept, max_y, count) = reject_hot_candidates(c.clone(), &hot, true);
    assert_eq!(kept, vec![c[0], c[2]]);
    assert_eq!(max_y, 7);
    assert_eq!(count, 1);
    let (kept, max_y, count) = reject_hot_candidates(c.clone(), &hot, false);
    assert_eq!(kept, c);
    assert_eq!(max_y, 9);
    assert_eq!(count, 0);
    let (kept, max_y, count) = reject_hot_candidates(vec![], &vec![], true);
    assert!(kept.is_empty());
    assert_eq!((max_y, count), (0, 0));
}

#[test]
fn margin_maps_to_finer_image() {
    // Doubled inside the finer image.
    assert_eq!(higher_res_margin(&Rect::new(3, 4, 5, 5), 100, 100), Rect::new(6, 8, 10, 10));
    // Clipped at the finer image's right and bottom edges.
    assert_eq!(higher_res_margin(&Rect::new(45, 46, 5, 5), 99, 97), Rect::new(90, 92, 9, 5));
}

#[test]
fn gate_takes_any_size_limit() {
    let mut pixels = vec![10u8; 20 * 20];
    pixels[10 * 20 + 10] = 200;
    let image = GrayImage::from_raw(20, 20, pixels).unwrap();
    let blob = Blob { candidates: vec![CandidateFrom1D { x: 10, y: 10 }], recipient_blob: None };
    let small = gate_star_shape(&blob, &image, 10, 10);
    let huge = gate_star_shape(&blob, &image, u32::MAX, 70_000);
    assert!(small.is_some());
    assert_eq!(small, huge);
}

#[test]
fn gate_rejects_negative_candidates() {
    let image = GrayImage::from_raw(20, 20, vec![10u8; 400]).unwrap();
    let blob = Blob { candidates: vec![CandidateFrom1D { x: -1, y: 5 }], recipient_blob: None };
    assert!(gate_star_shape(&blob, &image, u32::MAX, u32::MAX).is_none());
    let blob = Blob {
        candidates: vec![CandidateFrom1D { x: -2, y: 10 }, CandidateFrom1D { x: 10, y: 10 }],
        recipient_blob: None,
    };
    assert!(gate_star_shape(&blob, &image, u32::MAX, u32::MAX).is_none());
}

#[test]
fn gate_margin_mean_tie_rejects() {
    // Spot of 11 on a background of 10; one margin-ring pixel raises the
    // ring's mean to exactly 11 (176 / 16), which is not below the core.
    let mut pixels = vec![10u8; 20 * 20];
    pixels[10 * 20 + 10] = 11;
    pixels[8 * 20 + 8] = 26;
    let image = GrayImage::from_raw(20, 20, pixels.clone()).unwrap();
    let blob = Blob { candidates: vec![CandidateFrom1D { x: 10, y: 10 }], recipient_blob: None };
    assert!(gate_star_shape(&blob, &image, 10, 10).is_none());
    // At 175 / 16 the ring is just below the core and the spot passes.
    pixels[8 * 20 + 8] = 25;
    let image = GrayImage::from_raw(20, 20, pixels).unwrap();
    assert!(gate_star_shape(&blob, &image, 10, 10).is_some());
}
