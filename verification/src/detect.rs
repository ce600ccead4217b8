//! The integer decisions of end-to-end star detection: which binning factors
//! are accepted, which 1-D candidates survive hot-pixel rejection, the
//! largest candidate row, and the size limit handed to the 2-D gate.

use vstd::prelude::*;
use crate::blob::CandidateFrom1D;

verus! {

/// Why a detection request was refused.
#[derive(Debug, Clone, Copy, PartialEq, Eq, Structural)]
pub enum DetectError {
    /// A binned image was asked for while detecting at full resolution.
    BinnedImageWithoutBinning,
    /// The binning factor is not 1, 2, 4 or 8.
    InvalidBinning { binning: u32 },
}

/// The binning factors detection runs at.
pub open spec fn binning_supported(binning: u32) -> bool {
    binning == 1 || binning == 2 || binning == 4 || binning == 8
}

/// Checks the binning arguments of a detection request.
pub fn check_binning(binning: u32, return_binned_image: bool) -> (r: Result<(), DetectError>)
    ensures
        r == (if binning == 1 && return_binned_image {
            Err(DetectError::BinnedImageWithoutBinning)
        } else if !binning_supported(binning) {
            Err(DetectError::InvalidBinning { binning })
        } else {
            Ok(())
        }),
{
    if binning == 1 {
        if return_binned_image {
            return Err(DetectError::BinnedImageWithoutBinning);
        }
        Ok(())
    } else if binning == 2 || binning == 4 || binning == 8 {
        Ok(())
    } else {
        Err(DetectError::InvalidBinning { binning })
    }
}

/// Largest width and height, in detection pixels, that the 2-D gate accepts
/// for a star in an image `width` pixels wide: a hundredth of the width at full
/// resolution, that divided by the binning factor plus one when binned.
pub open spec fn gate_size_limit_spec(width: u32, binning: u32) -> int {
    if binning == 1 {
        width as int / 100
    } else {
        (width as int / 100) / (binning as int) + 1
    }
}

/// Computes the star gate's size limit for an image `width` pixels wide.
pub fn gate_size_limit(width: u32, binning: u32) -> (limit: u32)
    requires
        binning > 0,
    ensures
        limit == gate_size_limit_spec(width, binning),
{
    let max_size = width / 100;
    if binning == 1 {
        max_size
    } else {
        max_size / binning + 1
    }
}

/// The candidates kept by hot-pixel rejection: all of them when rejection is
/// off, else those not flagged hot, in order.
pub open spec fn kept_candidates(c: Seq<CandidateFrom1D>, hot: Seq<bool>, reject: bool) -> Seq<CandidateFrom1D>
    decreases c.len(),
{
    if c.len() == 0 {
        c
    } else {
        let rest = kept_candidates(c.drop_last(), hot, reject);
        if reject && hot[c.len() - 1] {
            rest
        } else {
            rest.push(c.last())
        }
    }
}

/// Number of candidates flagged hot when rejection is on.
pub open spec fn hot_count(c: Seq<CandidateFrom1D>, hot: Seq<bool>, reject: bool) -> nat
    decreases c.len(),
{
    if c.len() == 0 {
        0
    } else {
        hot_count(c.drop_last(), hot, reject) + if reject && hot[c.len() - 1] { 1nat } else { 0nat }
    }
}

/// Largest row of the candidates, read as `usize`, or 0.
pub open spec fn max_row(c: Seq<CandidateFrom1D>) -> usize
    decreases c.len(),
{
    if c.len() == 0 {
        0
    } else {
        let m = max_row(c.drop_last());
        let y = c.last().y as usize;
        if y > m { y } else { m }
    }
}

proof fn lemma_kept_prefix(c: Seq<CandidateFrom1D>, hot: Seq<bool>, reject: bool, i: int)
    requires
        0 <= i < c.len(),
    ensures
        c.subrange(0, i + 1).drop_last() == c.subrange(0, i),
        c.subrange(0, i + 1).last() == c[i],
{
}

proof fn lemma_max_row_push(c: Seq<CandidateFrom1D>, x: CandidateFrom1D)
    ensures
        max_row(c.push(x)) == (if (x.y as usize) > max_row(c) { x.y as usize } else { max_row(c) }),
{
    assert(c.push(x).drop_last() == c);
}

/// Applies hot-pixel rejection to the 1-D candidates. `hot[i]` says whether
/// every bright pixel of candidate `i` is a hot pixel. Returns the surviving
/// candidates, their largest row, and the number rejected as hot.
pub fn reject_hot_candidates(candidates: Vec<CandidateFrom1D>, hot: &Vec<bool>, detect_hot_pixels: bool)
    -> (r: (Vec<CandidateFrom1D>, usize, i32))
    requires
        hot@.len() == candidates@.len(),
        candidates@.len() <= i32::MAX,
    ensures
        r.0@ == kept_candidates(candidates@, hot@, detect_hot_pixels),
        r.1 == max_row(kept_candidates(candidates@, hot@, detect_hot_pixels)),
        r.2 == hot_count(candidates@, hot@, detect_hot_pixels),
{
    let mut kept: Vec<CandidateFrom1D> = Vec::new();
    let mut max_y: usize = 0;
    let mut hot_pixel_count: i32 = 0;
    let mut i: usize = 0;
    while i < candidates.len()
        invariant
            i <= candidates@.len(),
            hot@.len() == candidates@.len(),
            candidates@.len() <= i32::MAX,
            kept@ == kept_candidates(candidates@.subrange(0, i as int), hot@, detect_hot_pixels),
            max_y == max_row(kept@),
            hot_pixel_count == hot_count(candidates@.subrange(0, i as int), hot@, detect_hot_pixels),
            hot_pixel_count <= i,
        decreases candidates@.len() - i,
    {
        proof {
            lemma_kept_prefix(candidates@, hot@, detect_hot_pixels, i as int);
        }
        let cand = candidates[i];
        if detect_hot_pixels && hot[i] {
            hot_pixel_count += 1;
        } else {
            proof {
                lemma_max_row_push(kept@, cand);
            }
            let y = cand.y as usize;
            if y > max_y {
                max_y = y;
            }
            kept.push(cand);
        }
        i += 1;
    }
    assert(candidates@.subrange(0, candidates@.len() as int) == candidates@);
    (kept, max_y, hot_pixel_count)
}

/// Hot-pixel rejection splits the candidates: every candidate is either kept
/// or counted as hot.
pub proof fn rejection_keeps_or_counts(c: Seq<CandidateFrom1D>, hot: Seq<bool>, reject: bool)
    ensures
        kept_candidates(c, hot, reject).len() + hot_count(c, hot, reject) == c.len(),
        !reject ==> kept_candidates(c, hot, reject) == c && hot_count(c, hot, reject) == 0,
    decreases c.len(),
{
    if c.len() > 0 {
        rejection_keeps_or_counts(c.drop_last(), hot, reject);
        if !reject {
            assert(c.drop_last().push(c.last()) =~= c);
        }
    }
}

} // verus!
