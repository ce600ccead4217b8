use plate_solver::service::{
    grpc_timeout_nanos,
    extract_binning, map_status, matched_stars, peak_star_pixel, solve_binning, solve_timeout, validate_dimensions,
    validate_image, PlateSolverService, RequestError,
};
use plate_solver::solve::SolveStatus;

#[test]
fn status_codes() {
    assert_eq!(map_status(SolveStatus::MatchFound), 0);
    assert_eq!(map_status(SolveStatus::NoMatch), 1);
    assert_eq!(map_status(SolveStatus::Timeout), 2);
    assert_eq!(map_status(SolveStatus::Cancelled), 3);
    assert_eq!(map_status(SolveStatus::TooFew), 4);
}

#[test]
fn service_keeps_its_database() {
    let svc = PlateSolverService::new(vec![1u32, 2, 3]);
    assert_eq!(svc.database(), &vec![1u32, 2, 3]);
}

#[test]
fn extract_centroids_invalid_binning() {
    assert_eq!(extract_binning(Some(3), true, false), Err(RequestError::InvalidBinning { binning: 3 }));
    assert_eq!(extract_binning(Some(3), false, true), Err(RequestError::InvalidBinning { binning: 3 }));
    // Without binned detection or output, the binning field is ignored.
    assert_eq!(extract_binning(Some(3), false, false), Ok(1));
    assert_eq!(extract_binning(None, true, false), Ok(2));
    assert_eq!(extract_binning(Some(4), false, true), Ok(4));
    assert_eq!(extract_binning(Some(2), true, true), Ok(2));
}

#[test]
fn solve_from_image_binning() {
    assert_eq!(solve_binning(None), Ok(1));
    assert_eq!(solve_binning(Some(2)), Ok(2));
    assert_eq!(solve_binning(Some(4)), Ok(4));
    assert_eq!(solve_binning(Some(1)), Err(RequestError::InvalidBinning { binning: 1 }));
    assert_eq!(solve_binning(Some(-2)), Err(RequestError::InvalidBinning { binning: -2 }));
}

#[test]
fn extract_centroids_bad_dimensions() {
    // 100 bytes of data but claim width=20, height=20 (400 expected).
    assert_eq!(validate_image(20, 20, 100), Err(RequestError::LengthMismatch { len: 100, expected: 400 }));
    assert_eq!(validate_image(20, 20, 400), Ok((20, 20)));
}

#[test]
fn dimension_checks() {
    assert_eq!(validate_dimensions(-1, 10), Err(RequestError::NegativeDimension { width: -1, height: 10 }));
    assert_eq!(validate_dimensions(10, -5), Err(RequestError::NegativeDimension { width: 10, height: -5 }));
    assert_eq!(validate_dimensions(0, 10), Err(RequestError::ZeroDimension));
    assert_eq!(validate_dimensions(10, 0), Err(RequestError::ZeroDimension));
    assert_eq!(
        validate_dimensions(65536, 65536),
        Err(RequestError::OversizedImage { width: 65536, height: 65536 })
    );
    assert_eq!(validate_dimensions(65536, 65535), Ok((65536, 65535)));
    assert_eq!(validate_dimensions(640, 480), Ok((640, 480)));
    assert_eq!(validate_image(0, 0, 0), Err(RequestError::ZeroDimension));
}

#[test]
fn timeout_passes_through() {
    assert_eq!(solve_timeout(Some(5000)), Some(5000));
    assert_eq!(solve_timeout(None), None);
    assert_eq!(solve_timeout(Some(-1)), Some(u64::MAX));
}

#[test]
fn peak_pixel_average() {
    assert_eq!(peak_star_pixel(&vec![]), 255);
    assert_eq!(peak_star_pixel(&vec![200, 100]), 150);
    assert_eq!(peak_star_pixel(&vec![10, 11]), 10);
    // Only the ten brightest stars count.
    let mut peaks = vec![100u8; 10];
    peaks.extend_from_slice(&[0, 0, 0]);
    assert_eq!(peak_star_pixel(&peaks), 100);
}

#[test]
fn matched_stars_zip_to_shortest() {
    let c = Some(vec![[1.0f64, 2.0], [3.0, 4.0], [5.0, 6.0]]);
    let s = Some(vec![[10.0f64, 20.0, 5.5], [30.0, 40.0, 6.5]]);
    let ids = Some(vec![7u32, 4_000_000_000, 9]);
    let m = matched_stars(true, &c, &s, &ids);
    assert_eq!(m.len(), 2);
    assert_eq!(m[0], ([1.0, 2.0], [10.0, 20.0, 5.5], 7));
    assert_eq!(m[1], ([3.0, 4.0], [30.0, 40.0, 6.5], 4_000_000_000i64));
    assert!(matched_stars(false, &c, &s, &ids).is_empty());
    assert!(matched_stars(true, &c, &None::<Vec<[f64; 3]>>, &ids).is_empty());
    assert!(matched_stars(true, &None::<Vec<[f64; 2]>>, &s, &ids).is_empty());
    assert!(matched_stars(true, &c, &s, &None).is_empty());
}

#[test]
fn grpc_timeout_header() {
    assert_eq!(grpc_timeout_nanos(b"100m"), Some(100_000_000));
    assert_eq!(grpc_timeout_nanos(b"5S"), Some(5_000_000_000));
    assert_eq!(grpc_timeout_nanos(b"2H"), Some(7_200_000_000_000));
    assert_eq!(grpc_timeout_nanos(b"3M"), Some(180_000_000_000));
    assert_eq!(grpc_timeout_nanos(b"7u"), Some(7_000));
    assert_eq!(grpc_timeout_nanos(b"99999999n"), Some(99_999_999));
    assert_eq!(grpc_timeout_nanos(b"99999999H"), Some(359_999_996_400_000_000_000));
    assert_eq!(grpc_timeout_nanos(b"123456789S"), None);
    assert_eq!(grpc_timeout_nanos(b"S"), None);
    assert_eq!(grpc_timeout_nanos(b"10x"), None);
    assert_eq!(grpc_timeout_nanos(b"1a0S"), None);
    assert_eq!(grpc_timeout_nanos(b""), None);
}
