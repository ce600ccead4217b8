//! The decisions the plate-solver service takes on a request before and after
//! the solver runs: the wire code of a solve status, the checks on image
//! dimensions and binning, the timeout it forwards, and the peak star pixel it
//! reports.

use vstd::prelude::*;
use std::sync::Arc;
use crate::solve::SolveStatus;

verus! {

/// The service, sharing one database among its requests.
pub struct PlateSolverService<D> {
    db: Arc<D>,
}

impl<D> PlateSolverService<D> {
    /// The database the service answers from.
    pub closed spec fn database_view(&self) -> D {
        *self.db
    }

    /// Creates a service over `db`.
    pub fn new(db: D) -> (s: Self)
        ensures
            s.database_view() == db,
    {
        PlateSolverService { db: Arc::new(db) }
    }

    /// The database the service answers from.
    pub fn database(&self) -> (d: &D)
        ensures
            *d == self.database_view(),
    {
        &*self.db
    }
}

/// Wire code of each solve status.
pub open spec fn status_code(status: SolveStatus) -> i32 {
    match status {
        SolveStatus::MatchFound => 0,
        SolveStatus::NoMatch => 1,
        SolveStatus::Timeout => 2,
        SolveStatus::Cancelled => 3,
        SolveStatus::TooFew => 4,
    }
}

/// Maps a solver status to its wire code.
pub fn map_status(status: SolveStatus) -> (code: i32)
    ensures
        code == status_code(status),
{
    match status {
        SolveStatus::MatchFound => 0,
        SolveStatus::NoMatch => 1,
        SolveStatus::Timeout => 2,
        SolveStatus::Cancelled => 3,
        SolveStatus::TooFew => 4,
    }
}

/// The solve timeout forwarded to the solver, in milliseconds: the request's
/// value converted to `u64` the way an `as` cast converts it.
pub fn solve_timeout(timeout_ms: Option<i32>) -> (t: Option<u64>)
    ensures
        t == (match timeout_ms {
            Some(ms) => Some(ms as u64),
            None => None,
        }),
{
    match timeout_ms {
        Some(ms) => Some(ms as u64),
        None => None,
    }
}

/// Why a request was refused as an invalid argument.
#[derive(Debug, Clone, Copy, PartialEq, Eq, Structural)]
pub enum RequestError {
    /// A width or height below zero.
    NegativeDimension { width: i32, height: i32 },
    /// A width or height of zero.
    ZeroDimension,
    /// `width * height` does not fit in 32 bits.
    OversizedImage { width: i32, height: i32 },
    /// The pixel data does not hold `width * height` bytes.
    LengthMismatch { len: usize, expected: usize },
    /// A binning factor other than 2 or 4.
    InvalidBinning { binning: i32 },
}

/// The outcome of checking a request's width and height.
pub open spec fn dimensions_spec(width: i32, height: i32) -> Result<(u32, u32), RequestError> {
    if width < 0 || height < 0 {
        Err(RequestError::NegativeDimension { width, height })
    } else if width == 0 || height == 0 {
        Err(RequestError::ZeroDimension)
    } else if width * height > u32::MAX {
        Err(RequestError::OversizedImage { width, height })
    } else {
        Ok((width as u32, height as u32))
    }
}

/// Checks a request's width and height: both positive, with a pixel count
/// that fits in 32 bits.
pub fn validate_dimensions(width: i32, height: i32) -> (r: Result<(u32, u32), RequestError>)
    ensures
        r == dimensions_spec(width, height),
{
    if width < 0 || height < 0 {
        return Err(RequestError::NegativeDimension { width, height });
    }
    let w = width as u32;
    let h = height as u32;
    if w == 0 || h == 0 {
        return Err(RequestError::ZeroDimension);
    }
    match w.checked_mul(h) {
        Some(_) => Ok((w, h)),
        None => Err(RequestError::OversizedImage { width, height }),
    }
}

/// The outcome of checking an inline or shared-memory image against its
/// declared dimensions.
pub open spec fn image_spec(width: i32, height: i32, len: usize) -> Result<(u32, u32), RequestError> {
    match dimensions_spec(width, height) {
        Err(e) => Err(e),
        Ok((w, h)) => if len == w * h {
            Ok((w, h))
        } else {
            Err(RequestError::LengthMismatch { len, expected: (w * h) as usize })
        },
    }
}

/// Checks image data of `len` bytes against the declared width and height.
pub fn validate_image(width: i32, height: i32, len: usize) -> (r: Result<(u32, u32), RequestError>)
    ensures
        r == image_spec(width, height, len),
        r matches Ok((w, h)) ==> w == width && h == height && len == (width as int) * (height as int),
        width > 0 && height > 0 && (width as int) * (height as int) <= u32::MAX
            && len != (width as int) * (height as int) ==> r == Err::<(u32, u32), RequestError>(
            RequestError::LengthMismatch { len, expected: ((width as int) * (height as int)) as usize }),
{
    proof {
        image_accepted_exactly_at_its_size(width, height, len);
    }
    match validate_dimensions(width, height) {
        Err(e) => Err(e),
        Ok((w, h)) => {
            let expected = (w * h) as usize;
            if len == expected {
                Ok((w, h))
            } else {
                Err(RequestError::LengthMismatch { len, expected })
            }
        },
    }
}

/// The binning used to extract centroids: 1 unless the request detects on, or
/// returns, a binned image; then the requested factor, 2 by default, which
/// must be 2 or 4.
pub open spec fn extract_binning_spec(binning: Option<i32>, use_binned: bool, return_binned: bool) -> Result<u32, RequestError> {
    if use_binned || return_binned {
        match binning {
            None => Ok(2u32),
            Some(b) => if b == 2 || b == 4 {
                Ok(b as u32)
            } else {
                Err(RequestError::InvalidBinning { binning: b })
            },
        }
    } else {
        Ok(1u32)
    }
}

/// Chooses the binning for a centroid-extraction request.
pub fn extract_binning(binning: Option<i32>, use_binned: bool, return_binned: bool) -> (r: Result<u32, RequestError>)
    ensures
        r == extract_binning_spec(binning, use_binned, return_binned),
{
    if use_binned || return_binned {
        match binning {
            None => Ok(2),
            Some(b) => {
                if b == 2 || b == 4 {
                    Ok(b as u32)
                } else {
                    Err(RequestError::InvalidBinning { binning: b })
                }
            },
        }
    } else {
        Ok(1)
    }
}

/// The binning used when solving from an image: 1 by default, else the
/// requested factor, which must be 2 or 4.
pub open spec fn solve_binning_spec(binning: Option<i32>) -> Result<u32, RequestError> {
    match binning {
        None => Ok(1u32),
        Some(b) => if b == 2 || b == 4 {
            Ok(b as u32)
        } else {
            Err(RequestError::InvalidBinning { binning: b })
        },
    }
}

/// Chooses the binning for a solve-from-image request.
pub fn solve_binning(binning: Option<i32>) -> (r: Result<u32, RequestError>)
    ensures
        r == solve_binning_spec(binning),
{
    match binning {
        None => Ok(1),
        Some(b) => {
            if b == 2 || b == 4 {
                Ok(b as u32)
            } else {
                Err(RequestError::InvalidBinning { binning: b })
            }
        },
    }
}

/// How many of the brightest stars the peak pixel value is averaged over.
pub const NUM_PEAKS: usize = 10;

/// Sum of the first `n` values.
pub open spec fn sum_first(v: Seq<u8>, n: int) -> int
    decreases n,
{
    if n <= 0 {
        0
    } else {
        sum_first(v, n - 1) + v[n - 1]
    }
}

/// The reported peak star pixel: the mean, rounded down, of the peak values
/// of the first `NUM_PEAKS` stars (brightest first), or 255 without stars.
pub open spec fn peak_star_pixel_spec(peaks: Seq<u8>) -> i32 {
    let n = if peaks.len() < NUM_PEAKS { peaks.len() as int } else { NUM_PEAKS as int };
    if n == 0 {
        255
    } else {
        (sum_first(peaks, n) / n) as i32
    }
}

/// Averages the peak values of the brightest stars.
pub fn peak_star_pixel(peaks: &Vec<u8>) -> (p: i32)
    ensures
        p == peak_star_pixel_spec(peaks@),
        peaks@.len() == 0 ==> p == 255,
        peaks@.len() >= 10 ==> p == (peaks@[0] + peaks@[1] + peaks@[2] + peaks@[3] + peaks@[4] + peaks@[5]
            + peaks@[6] + peaks@[7] + peaks@[8] + peaks@[9]) / 10,
        0 < peaks@.len() < 10 ==> p * peaks@.len() <= sum_first(peaks@, peaks@.len() as int) < (p + 1) * peaks@.len(),
{
    proof {
        peak_pixel_is_mean_of_ten_brightest(peaks@);
    }
    let mut sum: i32 = 0;
    let mut n: i32 = 0;
    let mut i: usize = 0;
    while i < peaks.len() && i < NUM_PEAKS
        invariant
            i <= peaks@.len(),
            i <= NUM_PEAKS,
            n == i,
            sum == sum_first(peaks@, i as int),
            0 <= sum <= 255 * i,
        decreases NUM_PEAKS - i,
    {
        sum = sum + peaks[i] as i32;
        n = n + 1;
        i += 1;
    }
    if n > 0 {
        sum / n
    } else {
        255
    }
}

/// The matched stars a solution reports: nothing unless matches were asked
/// for and the solution carries matched centroids, stars and catalog ids;
/// then one entry per index common to the three lists.
pub open spec fn matched_entries<A, B>(
    return_matches: bool,
    centroids: Option<Seq<A>>,
    stars: Option<Seq<B>>,
    cat_ids: Option<Seq<u32>>,
) -> Seq<(A, B, i64)> {
    match (centroids, stars, cat_ids) {
        (Some(c), Some(s), Some(ids)) => if return_matches {
            let n = if c.len() <= s.len() && c.len() <= ids.len() {
                c.len()
            } else if s.len() <= ids.len() {
                s.len()
            } else {
                ids.len()
            };
            Seq::new(n, |i: int| (c[i], s[i], ids[i] as i64))
        } else {
            Seq::empty()
        },
        _ => Seq::empty(),
    }
}

/// The view of an optional list.
pub open spec fn opt_view<T>(v: Option<Vec<T>>) -> Option<Seq<T>> {
    match v {
        Some(v) => Some(v@),
        None => None,
    }
}

/// Lists the matched stars of a solution: centroid, catalog star and
/// catalog id of each match, the lists zipped to the shortest.
pub fn matched_stars<A: Copy, B: Copy>(
    return_matches: bool,
    centroids: &Option<Vec<A>>,
    stars: &Option<Vec<B>>,
    cat_ids: &Option<Vec<u32>>,
) -> (m: Vec<(A, B, i64)>)
    ensures
        m@ == matched_entries(return_matches, opt_view(*centroids), opt_view(*stars), opt_view(*cat_ids)),
{
    let mut out: Vec<(A, B, i64)> = Vec::new();
    if !return_matches {
        return out;
    }
    match (centroids, stars, cat_ids) {
        (Some(c), Some(s), Some(ids)) => {
            let mut n = c.len();
            if s.len() < n {
                n = s.len();
            }
            if ids.len() < n {
                n = ids.len();
            }
            let ghost want = matched_entries(return_matches, opt_view(*centroids), opt_view(*stars), opt_view(*cat_ids));
            assert(want.len() == n);
            let mut i: usize = 0;
            while i < n
                invariant
                    i <= n,
                    n <= c@.len(),
                    n <= s@.len(),
                    n <= ids@.len(),
                    want.len() == n,
                    want == Seq::new(n as nat, |k: int| (c@[k], s@[k], ids@[k] as i64)),
                    out@ == want.take(i as int),
                decreases n - i,
            {
                out.push((c[i], s[i], ids[i] as i64));
                assert(out@ =~= want.take(i + 1));
                i += 1;
            }
            assert(out@ =~= want);
            out
        },
        _ => out,
    }
}

/// Distinct solve statuses go out as distinct wire codes, each in `0..=4`.
pub proof fn status_codes_are_distinct(a: SolveStatus, b: SolveStatus)
    ensures
        0 <= status_code(a) <= 4,
        status_code(a) == status_code(b) ==> a == b,
{
}

/// Nanoseconds in one unit of a gRPC timeout: `H`ours, `M`inutes, `S`econds,
/// `m`illiseconds, `u` (microseconds) or `n`anoseconds.
pub open spec fn timeout_unit_nanos(unit: u8) -> Option<int> {
    if unit == 72 {
        Some(3_600_000_000_000int)
    } else if unit == 77 {
        Some(60_000_000_000int)
    } else if unit == 83 {
        Some(1_000_000_000int)
    } else if unit == 109 {
        Some(1_000_000int)
    } else if unit == 117 {
        Some(1_000int)
    } else if unit == 110 {
        Some(1int)
    } else {
        None
    }
}

/// The byte is an ASCII digit.
pub open spec fn is_digit(b: u8) -> bool {
    48 <= b <= 57
}

/// The decimal number written by the digits `d`.
pub open spec fn decimal_value(d: Seq<u8>) -> int
    decreases d.len(),
{
    if d.len() == 0 {
        0
    } else {
        decimal_value(d.drop_last()) * 10 + (d.last() - 48)
    }
}

/// The deadline a `grpc-timeout` header carries, in nanoseconds: one to
/// eight ASCII digits followed by a unit letter; `None` for any other value.
pub open spec fn grpc_timeout_spec(v: Seq<u8>) -> Option<int> {
    if 2 <= v.len() <= 9 && (forall|i: int| 0 <= i < v.len() - 1 ==> is_digit(#[trigger] v[i]))
        && timeout_unit_nanos(v.last()) is Some {
        Some(decimal_value(v.take(v.len() - 1)) * timeout_unit_nanos(v.last())->Some_0)
    } else {
        None
    }
}

proof fn lemma_decimal_bound(d: Seq<u8>)
    requires
        forall|i: int| 0 <= i < d.len() ==> is_digit(#[trigger] d[i]),
    ensures
        0 <= decimal_value(d) < pow10(d.len()),
    decreases d.len(),
{
    if d.len() > 0 {
        lemma_decimal_bound(d.drop_last());
        assert(is_digit(d[d.len() - 1]));
    }
}

/// `10` to the power `k`.
pub open spec fn pow10(k: nat) -> int
    decreases k,
{
    if k == 0 { 1 } else { 10 * pow10((k - 1) as nat) }
}

/// Reads a `grpc-timeout` header value as nanoseconds, the request's deadline.
pub fn grpc_timeout_nanos(value: &[u8]) -> (t: Option<u128>)
    ensures
        t matches Some(n) ==> grpc_timeout_spec(value@) == Some(n as int),
        t is None ==> grpc_timeout_spec(value@) is None,
{
    let len = value.len();
    if len < 2 || len > 9 {
        return None;
    }
    let unit = value[len - 1];
    let mult: u128 = if unit == 72 {
        3_600_000_000_000
    } else if unit == 77 {
        60_000_000_000
    } else if unit == 83 {
        1_000_000_000
    } else if unit == 109 {
        1_000_000
    } else if unit == 117 {
        1_000
    } else if unit == 110 {
        1
    } else {
        return None;
    };
    let ghost digits = value@.take(len - 1);
    let mut acc: u64 = 0;
    let mut i: usize = 0;
    while i < len - 1
        invariant
            len == value@.len(),
            2 <= len <= 9,
            i <= len - 1,
            digits == value@.take(len - 1),
            forall|k: int| 0 <= k < i ==> is_digit(#[trigger] value@[k]),
            acc == decimal_value(value@.take(i as int)),
            acc < pow10(i as nat),
        decreases len - 1 - i,
    {
        let b = value[i];
        if b < 48 || b > 57 {
            assert(!is_digit(value@[i as int]));
            return None;
        }
        assert(value@.take(i + 1).drop_last() =~= value@.take(i as int));
        assert(pow10((i + 1) as nat) == 10 * pow10(i as nat));
        assert(pow10(i as nat) <= 100_000_000) by {
            lemma_pow10_mono(i as nat, 8);
            lemma_pow10_8();
        }
        acc = acc * 10 + (b - 48) as u64;
        i += 1;
    }
    assert(digits =~= value@.take(i as int));
    assert(acc < 100_000_000) by {
        lemma_pow10_mono((len - 1) as nat, 8);
        lemma_pow10_8();
    }
    Some(acc as u128 * mult)
}

proof fn lemma_pow10_mono(a: nat, b: nat)
    requires
        a <= b,
    ensures
        pow10(a) <= pow10(b),
        pow10(a) >= 1,
    decreases b,
{
    if b > 0 && a < b {
        lemma_pow10_mono(a, (b - 1) as nat);
    } else if b > 0 {
        lemma_pow10_mono(0, (b - 1) as nat);
    }
}

proof fn lemma_pow10_8()
    ensures
        pow10(8) == 100_000_000,
{
    reveal_with_fuel(pow10, 9);
}

/// An image request is accepted exactly when its dimensions are valid and
/// its data holds exactly `width * height` bytes; valid dimensions with any
/// other length are refused with that length and the expected one.
pub proof fn image_accepted_exactly_at_its_size(width: i32, height: i32, len: usize)
    ensures
        image_spec(width, height, len) matches Ok((w, h)) ==> w == width && h == height
            && len == (width as int) * (height as int),
        width > 0 && height > 0 && (width as int) * (height as int) <= u32::MAX
            && len != (width as int) * (height as int) ==> image_spec(width, height, len)
            == Err::<(u32, u32), RequestError>(
            RequestError::LengthMismatch { len, expected: ((width as int) * (height as int)) as usize }),
{
}

proof fn lemma_sum_first_bound(v: Seq<u8>, n: int)
    requires
        0 <= n <= v.len(),
    ensures
        0 <= sum_first(v, n) <= 255 * n,
    decreases n,
{
    if n > 0 {
        lemma_sum_first_bound(v, n - 1);
    }
}

/// The peak star pixel is 255 without stars; otherwise the mean, rounded
/// down, of the peak values of the first ten stars (of all of them when
/// there are fewer than ten).
pub proof fn peak_pixel_is_mean_of_ten_brightest(peaks: Seq<u8>)
    ensures
        peaks.len() == 0 ==> peak_star_pixel_spec(peaks) == 255,
        peaks.len() >= 10 ==> peak_star_pixel_spec(peaks) == (peaks[0] + peaks[1] + peaks[2] + peaks[3]
            + peaks[4] + peaks[5] + peaks[6] + peaks[7] + peaks[8] + peaks[9]) / 10,
        0 < peaks.len() < 10 ==> peak_star_pixel_spec(peaks) * peaks.len() <= sum_first(peaks, peaks.len() as int)
            < (peak_star_pixel_spec(peaks) + 1) * peaks.len(),
{
    if peaks.len() >= 10 {
        reveal_with_fuel(sum_first, 11);
        lemma_sum_first_bound(peaks, 10);
    } else if peaks.len() > 0 {
        let n = peaks.len() as int;
        let t = sum_first(peaks, n);
        lemma_sum_first_bound(peaks, n);
        let q = t / n;
        assert(q * n <= t < (q + 1) * n) by (nonlinear_arith)
            requires
                n > 0,
                t >= 0,
                q == t / n,
        ;
        assert(0 <= q <= 255) by (nonlinear_arith)
            requires
                n > 0,
                0 <= t <= 255 * n,
                q == t / n,
        ;
    }
}

} // verus!
