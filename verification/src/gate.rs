//! The integer stages of the 2-D star gate: concentric boxes around a blob,
//! their pixel statistics and mean comparisons, the saturation count and peak
//! of a spot, its row and column projections, and the location of a 1-D peak.

use vstd::prelude::*;
use crate::blob::{Blob, CandidateFrom1D};
use crate::gray_image::{
    GrayImage, Rect, roi_pixels, perimeter_of, pixels_in_roi, perimeter_pixels,
};

verus! {

// ---------------------------------------------------------------------------
// Folds over pixel lists
// ---------------------------------------------------------------------------

/// Sum of the pixel values.
pub open spec fn px_sum(s: Seq<(i32, i32, u8)>) -> int
    decreases s.len(),
{
    if s.len() == 0 {
        0
    } else {
        px_sum(s.drop_last()) + s.last().2
    }
}

/// Smallest pixel value (0 for an empty list).
pub open spec fn px_min(s: Seq<(i32, i32, u8)>) -> int
    decreases s.len(),
{
    if s.len() == 0 {
        0
    } else if s.len() == 1 {
        s[0].2 as int
    } else {
        let m = px_min(s.drop_last());
        if (s.last().2 as int) < m { s.last().2 as int } else { m }
    }
}

/// Largest pixel value (0 for an empty list).
pub open spec fn px_max(s: Seq<(i32, i32, u8)>) -> int
    decreases s.len(),
{
    if s.len() == 0 {
        0
    } else {
        let m = px_max(s.drop_last());
        if (s.last().2 as int) > m { s.last().2 as int } else { m }
    }
}

/// Number of pixels of value 255.
pub open spec fn px_saturated(s: Seq<(i32, i32, u8)>) -> int
    decreases s.len(),
{
    if s.len() == 0 {
        0
    } else {
        px_saturated(s.drop_last()) + (if s.last().2 == 255u8 { 1int } else { 0int })
    }
}

/// The pixel is one of the four corners of `r`.
pub open spec fn is_corner(p: (i32, i32, u8), r: Rect) -> bool {
    (p.0 == r.left || p.0 == r.right_col()) && (p.1 == r.top || p.1 == r.bottom_row())
}

/// The pixels of `s` that are not corners of `r`, in order.
pub open spec fn non_corner(s: Seq<(i32, i32, u8)>, r: Rect) -> Seq<(i32, i32, u8)>
    decreases s.len(),
{
    if s.len() == 0 {
        Seq::empty()
    } else {
        let rest = non_corner(s.drop_last(), r);
        if is_corner(s.last(), r) { rest } else { rest.push(s.last()) }
    }
}

proof fn lemma_px_sum_bound(s: Seq<(i32, i32, u8)>)
    ensures
        0 <= px_sum(s) <= 255 * s.len(),
    decreases s.len(),
{
    if s.len() > 0 {
        lemma_px_sum_bound(s.drop_last());
    }
}

/// Sum of the pixel values.
pub fn sum_pixels(px: &Vec<(i32, i32, u8)>) -> (total: u128)
    ensures
        total == px_sum(px@),
{
    let mut total: u128 = 0;
    let mut i: usize = 0;
    while i < px.len()
        invariant
            i <= px@.len(),
            total == px_sum(px@.take(i as int)),
            total <= 255 * i,
        decreases px@.len() - i,
    {
        assert(px@.take(i as int + 1).drop_last() =~= px@.take(i as int));
        total = total + px[i].2 as u128;
        i += 1;
    }
    assert(px@.take(px@.len() as int) =~= px@);
    total
}

/// Smallest and largest pixel value of a non-empty list.
pub fn min_max_pixels(px: &Vec<(i32, i32, u8)>) -> (mm: (u8, u8))
    requires
        px@.len() > 0,
    ensures
        mm.0 == px_min(px@),
        mm.1 == px_max(px@),
{
    let mut lo = px[0].2;
    let mut hi = px[0].2;
    let mut i: usize = 1;
    assert(px@.take(1).drop_last() =~= Seq::<(i32, i32, u8)>::empty());
    assert(px@.take(1).last() == px@[0]);
    assert(px_max(px@.take(1).drop_last()) == 0);
    assert(px_max(px@.take(1)) == px@[0].2);
    while i < px.len()
        invariant
            1 <= i <= px@.len(),
            lo == px_min(px@.take(i as int)),
            hi == px_max(px@.take(i as int)),
            lo <= hi,
        decreases px@.len() - i,
    {
        assert(px@.take(i as int + 1).drop_last() =~= px@.take(i as int));
        let v = px[i].2;
        if v < lo {
            lo = v;
        } else if v > hi {
            hi = v;
        }
        i += 1;
    }
    assert(px@.take(px@.len() as int) =~= px@);
    (lo, hi)
}

/// The pixels of `px` that are not corners of `r`, in order.
pub fn non_corner_pixels(px: &Vec<(i32, i32, u8)>, r: &Rect) -> (out: Vec<(i32, i32, u8)>)
    requires
        r.width > 0,
        r.height > 0,
        r.right_col() <= i32::MAX,
        r.bottom_row() <= i32::MAX,
    ensures
        out@ == non_corner(px@, *r),
{
    let right = (r.left as i64 + r.width as i64 - 1) as i32;
    let bottom = (r.top as i64 + r.height as i64 - 1) as i32;
    let mut out: Vec<(i32, i32, u8)> = Vec::new();
    let mut i: usize = 0;
    while i < px.len()
        invariant
            i <= px@.len(),
            right == r.right_col(),
            bottom == r.bottom_row(),
            out@ == non_corner(px@.take(i as int), *r),
        decreases px@.len() - i,
    {
        assert(px@.take(i as int + 1).drop_last() =~= px@.take(i as int));
        let p = px[i];
        let corner = (p.0 == r.left || p.0 == right) && (p.1 == r.top || p.1 == bottom);
        if !corner {
            out.push(p);
        }
        i += 1;
    }
    assert(px@.take(px@.len() as int) =~= px@);
    out
}


// ---------------------------------------------------------------------------
// Box sizes
// ---------------------------------------------------------------------------

proof fn lemma_roi_rows_len(img: GrayImage, roi: Rect, n: nat)
    ensures
        crate::gray_image::roi_rows(img, roi, n).len() == n * roi.width,
    decreases n,
{
    if n > 0 {
        lemma_roi_rows_len(img, roi, (n - 1) as nat);
        let w = roi.width as int;
        assert((n - 1) * w + w == n * w) by (nonlinear_arith);
        assert(crate::gray_image::row_run(img, roi.left as int, roi.top + n - 1, roi.width as nat).len() == w);
    } else {
        assert(0 * (roi.width as int) == 0);
    }
}

proof fn lemma_sides_len(img: GrayImage, roi: Rect, k: nat)
    ensures
        crate::gray_image::perimeter_sides(img, roi, k).len() <= 2 * k,
    decreases k,
{
    if k > 0 {
        lemma_sides_len(img, roi, (k - 1) as nat);
    }
}

/// Pixel counts of a rectangle and of its border.
proof fn lemma_box_counts(img: GrayImage, roi: Rect)
    requires
        roi.width > 0,
        roi.height > 0,
    ensures
        roi_pixels(img, roi).len() == roi.width * roi.height,
        perimeter_of(img, roi).len() <= 2 * roi.width + 2 * roi.height,
        perimeter_of(img, roi).len() > 0,
{
    lemma_roi_rows_len(img, roi, roi.height as nat);
    assert(roi.height * roi.width == roi.width * roi.height) by (nonlinear_arith);
    if roi.height > 1 {
        lemma_sides_len(img, roi, (roi.height - 2) as nat);
    }
}

// ---------------------------------------------------------------------------
// The 2-D gate
// ---------------------------------------------------------------------------

/// Smallest column (`horizontal`) or row of the candidates.
pub open spec fn cand_min(s: Seq<CandidateFrom1D>, horizontal: bool) -> int
    decreases s.len(),
{
    if s.len() == 0 {
        0
    } else {
        let v = if horizontal { s.last().x as int } else { s.last().y as int };
        if s.len() == 1 {
            v
        } else {
            let m = cand_min(s.drop_last(), horizontal);
            if v < m { v } else { m }
        }
    }
}

/// Largest column (`horizontal`) or row of the candidates.
pub open spec fn cand_max(s: Seq<CandidateFrom1D>, horizontal: bool) -> int
    decreases s.len(),
{
    if s.len() == 0 {
        0
    } else {
        let v = if horizontal { s.last().x as int } else { s.last().y as int };
        if s.len() == 1 {
            v
        } else {
            let m = cand_max(s.drop_last(), horizontal);
            if v > m { v } else { m }
        }
    }
}

/// The bounding box of the candidates.
pub open spec fn core_box(s: Seq<CandidateFrom1D>) -> Rect {
    Rect {
        left: cand_min(s, true) as i32,
        top: cand_min(s, false) as i32,
        width: (cand_max(s, true) - cand_min(s, true) + 1) as u32,
        height: (cand_max(s, false) - cand_min(s, false) + 1) as u32,
    }
}

/// `r` grown by `d` pixels on every side.
pub open spec fn grown(r: Rect, d: int) -> Rect {
    Rect {
        left: (r.left - d) as i32,
        top: (r.top - d) as i32,
        width: (r.width + 2 * d) as u32,
        height: (r.height + 2 * d) as u32,
    }
}

/// The mean `s1 / n1` is below the mean `s2 / n2` (for positive counts).
pub open spec fn mean_below(s1: int, n1: int, s2: int, n2: int) -> bool {
    s1 * n2 < s2 * n1
}

/// Pixel statistics of a blob that passed the integer stages of the star gate.
#[derive(Debug, Clone, Copy, PartialEq, Eq, Structural)]
pub struct GateStats {
    /// Bounding box of the blob's candidates.
    pub core: Rect,
    /// The core grown by 2 pixels; the spot's brightness and centroid are measured here.
    pub margin: Rect,
    /// The core grown by 3 pixels; its border estimates the background.
    pub perimeter: Rect,
    pub core_sum: u128,
    pub core_count: u64,
    pub perimeter_sum: u128,
    pub perimeter_count: u64,
    pub perimeter_min: u8,
    pub perimeter_max: u8,
}

/// What the integer stages of the star gate decide for candidates `c` in `img`:
/// `None` when the core is larger than `max_width` x `max_height`, when the
/// perimeter box leaves the image (always, for an image wider or taller than
/// `i32::MAX`, whose size reads as negative), when the core's mean is below the mean of
/// its own border (cores of at least 3x3), below the mean of the neighbouring
/// ring without its corners, or not above the mean of the margin ring;
/// otherwise the boxes and the core and perimeter statistics.
pub open spec fn gate_outcome(c: Seq<CandidateFrom1D>, img: GrayImage, max_width: u32, max_height: u32) -> Option<GateStats> {
    let core = core_box(c);
    let neighbors = grown(core, 1);
    let margin = grown(core, 2);
    let perimeter = grown(core, 3);
    let core_px = roi_pixels(img, core);
    let outer_px = perimeter_of(img, core);
    let neighbor_px = non_corner(perimeter_of(img, neighbors), neighbors);
    let margin_px = perimeter_of(img, margin);
    let perimeter_px = perimeter_of(img, perimeter);
    if cand_max(c, true) - cand_min(c, true) + 1 > max_width
        || cand_max(c, false) - cand_min(c, false) + 1 > max_height {
        None
    } else if img.w() > i32::MAX || img.h() > i32::MAX
        || cand_min(c, true) - 3 < 0 || cand_max(c, true) + 3 >= img.w()
        || cand_min(c, false) - 3 < 0 || cand_max(c, false) + 3 >= img.h() {
        None
    } else if core.width >= 3 && core.height >= 3
        && mean_below(px_sum(core_px), core_px.len() as int, px_sum(outer_px), outer_px.len() as int) {
        None
    } else if mean_below(px_sum(core_px), core_px.len() as int, px_sum(neighbor_px), neighbor_px.len() as int) {
        None
    } else if !mean_below(px_sum(margin_px), margin_px.len() as int, px_sum(core_px), core_px.len() as int) {
        None
    } else {
        Some(GateStats {
            core,
            margin,
            perimeter,
            core_sum: px_sum(core_px) as u128,
            core_count: core_px.len() as u64,
            perimeter_sum: px_sum(perimeter_px) as u128,
            perimeter_count: perimeter_px.len() as u64,
            perimeter_min: px_min(perimeter_px) as u8,
            perimeter_max: px_max(perimeter_px) as u8,
        })
    }
}

/// Comparing means by whole quotients, then by remainders.
proof fn lemma_mean_by_quotients(s1: int, n1: int, s2: int, n2: int)
    requires
        n1 > 0,
        n2 > 0,
        s1 >= 0,
        s2 >= 0,
    ensures
        mean_below(s1, n1, s2, n2) == (s1 / n1 < s2 / n2
            || (s1 / n1 == s2 / n2 && (s1 % n1) * n2 < (s2 % n2) * n1)),
{
    let q1 = s1 / n1;
    let r1 = s1 % n1;
    let q2 = s2 / n2;
    let r2 = s2 % n2;
    assert(s1 == q1 * n1 + r1 && 0 <= r1 < n1) by (nonlinear_arith)
        requires
            n1 > 0,
            q1 == s1 / n1,
            r1 == s1 % n1,
    ;
    assert(s2 == q2 * n2 + r2 && 0 <= r2 < n2) by (nonlinear_arith)
        requires
            n2 > 0,
            q2 == s2 / n2,
            r2 == s2 % n2,
    ;
    assert(s1 * n2 == q1 * n1 * n2 + r1 * n2) by (nonlinear_arith)
        requires
            s1 == q1 * n1 + r1,
    ;
    assert(s2 * n1 == q2 * n1 * n2 + r2 * n1) by (nonlinear_arith)
        requires
            s2 == q2 * n2 + r2,
    ;
    assert(0 <= r1 * n2 < n1 * n2 && 0 <= r2 * n1 < n1 * n2) by (nonlinear_arith)
        requires
            0 <= r1 < n1,
            0 <= r2 < n2,
            n1 > 0,
            n2 > 0,
    ;
    if q1 < q2 {
        assert(q1 * n1 * n2 + n1 * n2 <= q2 * n1 * n2) by (nonlinear_arith)
            requires
                q1 < q2,
                n1 > 0,
                n2 > 0,
        ;
    } else if q2 < q1 {
        assert(q2 * n1 * n2 + n1 * n2 <= q1 * n1 * n2) by (nonlinear_arith)
            requires
                q2 < q1,
                n1 > 0,
                n2 > 0,
        ;
    }
}

/// `s1 / n1 < s2 / n2` (read as `s1 * n2 < s2 * n1`), decided exactly:
/// whole quotients first, then the remainders cross-multiplied.
fn mean_is_below(s1: u128, n1: u64, s2: u128, n2: u64) -> (below: bool)
    requires
        s1 <= 255 * n1,
        s2 <= 255 * n2,
    ensures
        below == mean_below(s1 as int, n1 as int, s2 as int, n2 as int),
{
    if n1 == 0 {
        assert(s1 == 0);
        return false;
    }
    if n2 == 0 {
        assert(s2 == 0);
        return false;
    }
    proof {
        lemma_mean_by_quotients(s1 as int, n1 as int, s2 as int, n2 as int);
    }
    let q1 = s1 / (n1 as u128);
    let q2 = s2 / (n2 as u128);
    if q1 != q2 {
        return q1 < q2;
    }
    let r1 = s1 % (n1 as u128);
    let r2 = s2 % (n2 as u128);
    assert((r1 as int) * (n2 as int) < 0x1_0000_0000_0000_0000 * 0x1_0000_0000_0000_0000) by (nonlinear_arith)
        requires
            0 <= r1 < n1,
            n1 <= u64::MAX,
            0 <= n2 <= u64::MAX,
    ;
    assert((r2 as int) * (n1 as int) < 0x1_0000_0000_0000_0000 * 0x1_0000_0000_0000_0000) by (nonlinear_arith)
        requires
            0 <= r2 < n2,
            n2 <= u64::MAX,
            0 <= n1 <= u64::MAX,
    ;
    r1 * (n2 as u128) < r2 * (n1 as u128)
}

/// Sum and count of a pixel list.
fn sum_and_count(px: &Vec<(i32, i32, u8)>) -> (sc: (u128, u64))
    ensures
        sc.0 == px_sum(px@),
        sc.1 == px@.len(),
        sc.0 <= 255 * sc.1,
{
    proof {
        lemma_px_sum_bound(px@);
    }
    let total = sum_pixels(px);
    (total, px.len() as u64)
}

/// The integer stages of the 2-D star gate for a blob: size and image-border
/// rejection, then the core-against-ring mean comparisons; on success, the
/// concentric boxes and the core and perimeter statistics that the noise and
/// significance tests need.
pub fn gate_star_shape(blob: &Blob, image: &GrayImage, max_width: u32, max_height: u32) -> (g: Option<GateStats>)
    requires
        blob.candidates@.len() > 0,
        // Growing the box by 3 pixels stays within `i32`.
        forall|i: int| 0 <= i < blob.candidates@.len() ==> {
            &&& i32::MIN + 3 <= (#[trigger] blob.candidates@[i]).x <= i32::MAX - 3
            &&& i32::MIN + 3 <= blob.candidates@[i].y <= i32::MAX - 3
        },
    ensures
        g == gate_outcome(blob.candidates@, *image, max_width, max_height),
        g matches Some(st) ==> {
            &&& st.perimeter_min <= st.perimeter_max
            &&& forall|i: int| 0 <= i < perimeter_of(*image, st.perimeter).len() ==>
                st.perimeter_min <= (#[trigger] perimeter_of(*image, st.perimeter)[i]).2 <= st.perimeter_max
            &&& exists|i: int| 0 <= i < perimeter_of(*image, st.perimeter).len()
                && (#[trigger] perimeter_of(*image, st.perimeter)[i]).2 == st.perimeter_min
            &&& exists|j: int| 0 <= j < perimeter_of(*image, st.perimeter).len()
                && (#[trigger] perimeter_of(*image, st.perimeter)[j]).2 == st.perimeter_max
        },
{
    proof {
        gate_perimeter_range(blob.candidates@, *image, max_width, max_height);
    }
    let cands = &blob.candidates;
    let ghost c = cands@;
    let mut x_min = cands[0].x;
    let mut x_max = cands[0].x;
    let mut y_min = cands[0].y;
    let mut y_max = cands[0].y;
    let mut i: usize = 1;
    assert(c.take(1).drop_last() =~= Seq::<CandidateFrom1D>::empty());
    assert(c.take(1).last() == c[0]);
    while i < cands.len()
        invariant
            c == cands@,
            1 <= i <= c.len(),
            forall|j: int| 0 <= j < c.len() ==> {
                &&& i32::MIN + 3 <= (#[trigger] c[j]).x <= i32::MAX - 3
                &&& i32::MIN + 3 <= c[j].y <= i32::MAX - 3
            },
            x_min == cand_min(c.take(i as int), true),
            x_max == cand_max(c.take(i as int), true),
            y_min == cand_min(c.take(i as int), false),
            y_max == cand_max(c.take(i as int), false),
            i32::MIN + 3 <= x_min <= x_max <= i32::MAX - 3,
            i32::MIN + 3 <= y_min <= y_max <= i32::MAX - 3,
        decreases c.len() - i,
    {
        assert(c.take(i as int + 1).drop_last() =~= c.take(i as int));
        assert(c.take(i as int + 1).last() == c[i as int]);
        let cd = cands[i];
        if cd.x < x_min {
            x_min = cd.x;
        }
        if cd.x > x_max {
            x_max = cd.x;
        }
        if cd.y < y_min {
            y_min = cd.y;
        }
        if cd.y > y_max {
            y_max = cd.y;
        }
        i += 1;
    }
    assert(c.take(c.len() as int) =~= c);
    let ghost core_spec = core_box(c);
    let ghost outcome = gate_outcome(c, *image, max_width, max_height);

    let width_span = x_max as i64 - x_min as i64 + 1;
    let height_span = y_max as i64 - y_min as i64 + 1;
    if width_span > max_width as i64 || height_span > max_height as i64 {
        return None;
    }
    let (image_width, image_height) = image.dimensions();
    if image_width > i32::MAX as u32 || image_height > i32::MAX as u32 {
        return None;
    }
    if x_min < 3 || (x_max as i64) + 3 >= image_width as i64 || y_min < 3 || (y_max as i64) + 3 >= image_height as i64 {
        return None;
    }
    let core_width = (x_max - x_min) as u32 + 1;
    let core_height = (y_max - y_min) as u32 + 1;

    let core = Rect::new(x_min, y_min, core_width, core_height);
    let neighbors = Rect::new(x_min - 1, y_min - 1, core_width + 2, core_height + 2);
    let margin = Rect::new(x_min - 2, y_min - 2, core_width + 4, core_height + 4);
    let perimeter = Rect::new(x_min - 3, y_min - 3, core_width + 6, core_height + 6);
    assert(core == core_spec);
    assert(neighbors == grown(core_spec, 1));
    assert(margin == grown(core_spec, 2));
    assert(perimeter == grown(core_spec, 3));
    proof {
        lemma_box_counts(*image, core);
        lemma_box_counts(*image, neighbors);
        lemma_box_counts(*image, margin);
        lemma_box_counts(*image, perimeter);
    }

    let core_px = pixels_in_roi(image, &core);
    let (core_sum, core_count) = sum_and_count(&core_px);
    if core_width >= 3 && core_height >= 3 {
        let outer_px = perimeter_pixels(image, &core);
        let (outer_sum, outer_count) = sum_and_count(&outer_px);
        if mean_is_below(core_sum, core_count, outer_sum, outer_count) {
            return None;
        }
    }
    let neighbor_ring = perimeter_pixels(image, &neighbors);
    let neighbor_px = non_corner_pixels(&neighbor_ring, &neighbors);
    proof {
        lemma_non_corner_len(neighbor_ring@, neighbors);
    }
    let (neighbor_sum, neighbor_count) = sum_and_count(&neighbor_px);
    if mean_is_below(core_sum, core_count, neighbor_sum, neighbor_count) {
        return None;
    }
    let margin_px = perimeter_pixels(image, &margin);
    let (margin_sum, margin_count) = sum_and_count(&margin_px);
    if !mean_is_below(margin_sum, margin_count, core_sum, core_count) {
        return None;
    }
    let perimeter_px = perimeter_pixels(image, &perimeter);
    let (perimeter_sum, perimeter_count) = sum_and_count(&perimeter_px);
    let (perimeter_min, perimeter_max) = min_max_pixels(&perimeter_px);
    Some(GateStats {
        core,
        margin,
        perimeter,
        core_sum,
        core_count,
        perimeter_sum,
        perimeter_count,
        perimeter_min,
        perimeter_max,
    })
}

proof fn lemma_non_corner_len(s: Seq<(i32, i32, u8)>, r: Rect)
    ensures
        non_corner(s, r).len() <= s.len(),
    decreases s.len(),
{
    if s.len() > 0 {
        lemma_non_corner_len(s.drop_last(), r);
    }
}


// ---------------------------------------------------------------------------
// Spot brightness, projections and 1-D peak
// ---------------------------------------------------------------------------

proof fn lemma_saturated_prefix(s: Seq<(i32, i32, u8)>, i: int)
    requires
        0 <= i <= s.len(),
    ensures
        0 <= px_saturated(s.take(i)) <= px_saturated(s),
    decreases s.len() - i,
{
    if i < s.len() {
        lemma_saturated_prefix(s, i + 1);
        assert(s.take(i + 1).drop_last() =~= s.take(i));
    } else {
        assert(s.take(i) =~= s);
    }
    lemma_saturated_nonneg(s.take(i));
}

proof fn lemma_saturated_nonneg(s: Seq<(i32, i32, u8)>)
    ensures
        px_saturated(s) >= 0,
    decreases s.len(),
{
    if s.len() > 0 {
        lemma_saturated_nonneg(s.drop_last());
    }
}

/// Number of saturated pixels (value 255) in `px`, and the largest value
/// (0 for an empty list).
pub fn saturation_and_peak(px: &Vec<(i32, i32, u8)>) -> (sp: (u16, u8))
    requires
        px_saturated(px@) <= u16::MAX,
    ensures
        sp.0 == px_saturated(px@),
        sp.1 == px_max(px@),
{
    let mut num_saturated: u16 = 0;
    let mut peak_value: u8 = 0;
    let mut i: usize = 0;
    while i < px.len()
        invariant
            i <= px@.len(),
            px_saturated(px@) <= u16::MAX,
            num_saturated == px_saturated(px@.take(i as int)),
            peak_value == px_max(px@.take(i as int)),
        decreases px@.len() - i,
    {
        assert(px@.take(i as int + 1).drop_last() =~= px@.take(i as int));
        proof {
            lemma_saturated_prefix(px@, i as int + 1);
        }
        let v = px[i].2;
        if v == 255u8 {
            num_saturated += 1;
        }
        if v > peak_value {
            peak_value = v;
        }
        i += 1;
    }
    assert(px@.take(px@.len() as int) =~= px@);
    (num_saturated, peak_value)
}

/// Sum of the `k` pixels of column `x` from row `y0` down.
pub open spec fn col_sum(img: GrayImage, x: int, y0: int, k: nat) -> int
    decreases k,
{
    if k == 0 {
        0
    } else {
        col_sum(img, x, y0, (k - 1) as nat) + img.px(x, y0 + k - 1)
    }
}

/// Sum of the `k` pixels of row `y` from column `x0` on.
pub open spec fn row_sum(img: GrayImage, x0: int, y: int, k: nat) -> int
    decreases k,
{
    if k == 0 {
        0
    } else {
        row_sum(img, x0, y, (k - 1) as nat) + img.px(x0 + k - 1, y)
    }
}

proof fn lemma_col_sum_bound(img: GrayImage, x: int, y0: int, k: nat)
    ensures
        0 <= col_sum(img, x, y0, k) <= 255 * k,
    decreases k,
{
    if k > 0 {
        lemma_col_sum_bound(img, x, y0, (k - 1) as nat);
    }
}

proof fn lemma_row_sum_bound(img: GrayImage, x0: int, y: int, k: nat)
    ensures
        0 <= row_sum(img, x0, y, k) <= 255 * k,
    decreases k,
{
    if k > 0 {
        lemma_row_sum_bound(img, x0, y, (k - 1) as nat);
    }
}

/// Column sums (`.0`, one per column) and row sums (`.1`, one per row) of
/// the pixels in `roi`.
pub fn projections(image: &GrayImage, roi: &Rect) -> (p: (Vec<u32>, Vec<u32>))
    requires
        roi.inside(*image),
        255 * roi.height <= u32::MAX,
        255 * roi.width <= u32::MAX,
    ensures
        p.0@.len() == roi.width,
        p.1@.len() == roi.height,
        forall|i: int| 0 <= i < roi.width ==> #[trigger] p.0@[i] == col_sum(*image, roi.left + i, roi.top as int, roi.height as nat),
        forall|j: int| 0 <= j < roi.height ==> #[trigger] p.1@[j] == row_sum(*image, roi.left as int, roi.top + j, roi.width as nat),
{
    let mut horizontal: Vec<u32> = Vec::new();
    let mut i: u32 = 0;
    while i < roi.width
        invariant
            i <= roi.width,
            horizontal@.len() == i,
            forall|t: int| 0 <= t < i ==> #[trigger] horizontal@[t] == 0,
        decreases roi.width - i,
    {
        horizontal.push(0);
        i += 1;
    }
    let mut vertical: Vec<u32> = Vec::new();
    let x0 = roi.left as u32;
    let y0 = roi.top as u32;
    let mut k: u32 = 0;
    while k < roi.height
        invariant
            roi.inside(*image),
            255 * roi.height <= u32::MAX,
            255 * roi.width <= u32::MAX,
            x0 == roi.left,
            y0 == roi.top,
            k <= roi.height,
            horizontal@.len() == roi.width,
            vertical@.len() == k,
            forall|t: int| 0 <= t < roi.width ==> #[trigger] horizontal@[t] == col_sum(*image, x0 + t, y0 as int, k as nat),
            forall|t: int| 0 <= t < k ==> #[trigger] vertical@[t] == row_sum(*image, x0 as int, y0 + t, roi.width as nat),
        decreases roi.height - k,
    {
        let mut acc: u32 = 0;
        let mut j: u32 = 0;
        while j < roi.width
            invariant
                roi.inside(*image),
                255 * roi.height <= u32::MAX,
                255 * roi.width <= u32::MAX,
                x0 == roi.left,
                y0 == roi.top,
                k < roi.height,
                j <= roi.width,
                horizontal@.len() == roi.width,
                forall|t: int| 0 <= t < j ==> #[trigger] horizontal@[t] == col_sum(*image, x0 + t, y0 as int, (k + 1) as nat),
                forall|t: int| j <= t < roi.width ==> #[trigger] horizontal@[t] == col_sum(*image, x0 + t, y0 as int, k as nat),
                acc == row_sum(*image, x0 as int, y0 + k, j as nat),
            decreases roi.width - j,
        {
            let pv = image.get_pixel(x0 + j, y0 + k);
            proof {
                lemma_col_sum_bound(*image, x0 + j, y0 as int, (k + 1) as nat);
                lemma_row_sum_bound(*image, x0 as int, y0 + k, (j + 1) as nat);
            }
            let h = horizontal[j as usize] + pv as u32;
            horizontal[j as usize] = h;
            acc = acc + pv as u32;
            j += 1;
        }
        vertical.push(acc);
        k += 1;
    }
    (horizontal, vertical)
}

/// `i` is the first position of the largest value of `v`.
pub open spec fn is_first_max(v: Seq<u32>, i: int) -> bool {
    &&& 0 <= i < v.len()
    &&& forall|j: int| 0 <= j < v.len() ==> #[trigger] v[j] <= v[i]
    &&& forall|j: int| 0 <= j < i ==> #[trigger] v[j] < v[i]
}

/// The values `v[i..i + n]` all equal `v[i]`, and the run ends there.
pub open spec fn is_max_run(v: Seq<u32>, i: int, n: int) -> bool {
    &&& n >= 1
    &&& 0 <= i
    &&& i + n <= v.len()
    &&& forall|t: int| i <= t < i + n ==> #[trigger] v[t] == v[i]
    &&& (i + n == v.len() || v[i + n] != v[i])
}

/// Where the peak of a 1-D profile lies, before sub-pixel refinement.
#[derive(Debug, Clone, Copy, PartialEq, Eq, Structural)]
pub enum PeakCoord1D {
    /// The first maximum starts a run of `len > 1` equal values: the peak is
    /// the middle of the run.
    Run { start: usize, len: usize },
    /// The first maximum is a single value at either end: the peak is there.
    Edge { index: usize },
    /// The first maximum is a single interior value: the peak is refined by
    /// a parabola through it and its two neighbours.
    Interpolate { index: usize, left: u32, center: u32, right: u32 },
}

/// Locates the peak of a non-empty 1-D profile: its first maximum and the
/// run of equal values that starts there.
pub fn locate_peak_1d(values: &Vec<u32>) -> (pk: PeakCoord1D)
    requires
        values@.len() > 0,
    ensures
        match pk {
            PeakCoord1D::Run { start, len } => is_first_max(values@, start as int)
                && is_max_run(values@, start as int, len as int) && len > 1,
            PeakCoord1D::Edge { index } => is_first_max(values@, index as int)
                && is_max_run(values@, index as int, 1)
                && (index == 0 || index == values@.len() - 1),
            PeakCoord1D::Interpolate { index, left, center, right } => is_first_max(values@, index as int)
                && is_max_run(values@, index as int, 1)
                && 0 < index < values@.len() - 1
                && left == values@[index - 1]
                && center == values@[index as int]
                && right == values@[index + 1],
        },
{
    let ghost v = values@;
    let mut peak_val: u32 = values[0];
    let mut peak_ind: usize = 0;
    let mut in_run = true;
    let mut peak_run_length: usize = 1;
    let mut ind: usize = 1;
    while ind < values.len()
        invariant
            v == values@,
            1 <= ind <= v.len(),
            peak_ind < ind,
            peak_val == v[peak_ind as int],
            forall|j: int| 0 <= j < ind ==> #[trigger] v[j] <= peak_val,
            forall|j: int| 0 <= j < peak_ind ==> #[trigger] v[j] < peak_val,
            peak_run_length >= 1,
            peak_ind + peak_run_length <= ind,
            forall|t: int| peak_ind <= t < peak_ind + peak_run_length ==> #[trigger] v[t] == peak_val,
            in_run ==> peak_ind + peak_run_length == ind,
            !in_run ==> v[peak_ind + peak_run_length] != peak_val,
        decreases v.len() - ind,
    {
        let val = values[ind];
        if val > peak_val {
            peak_val = val;
            peak_ind = ind;
            peak_run_length = 1;
            in_run = true;
        } else if val == peak_val {
            if in_run {
                peak_run_length += 1;
            }
        } else {
            in_run = false;
        }
        ind += 1;
    }
    if peak_run_length > 1 {
        return PeakCoord1D::Run { start: peak_ind, len: peak_run_length };
    }
    if peak_ind == 0 || peak_ind == values.len() - 1 {
        return PeakCoord1D::Edge { index: peak_ind };
    }
    PeakCoord1D::Interpolate {
        index: peak_ind,
        left: values[peak_ind - 1],
        center: values[peak_ind],
        right: values[peak_ind + 1],
    }
}

/// The first maximum of a profile and the run starting there are unique, so
/// `locate_peak_1d`'s result is determined by its input.
pub proof fn peak_location_is_unique(v: Seq<u32>, i1: int, n1: int, i2: int, n2: int)
    requires
        is_first_max(v, i1),
        is_first_max(v, i2),
        is_max_run(v, i1, n1),
        is_max_run(v, i2, n2),
    ensures
        i1 == i2,
        n1 == n2,
{
    assert(v[i1] <= v[i2] && v[i2] <= v[i1]);
    if i1 < i2 {
        assert(v[i1] < v[i2]);
    } else if i2 < i1 {
        assert(v[i2] < v[i1]);
    }
    if n1 < n2 {
        assert(v[i1 + n1] == v[i1]);
    } else if n2 < n1 {
        assert(v[i2 + n2] == v[i2]);
    }
}

/// The margin box of a binned detection, mapped to the image one binning
/// level finer: coordinates and size doubled, then clipped to that image's
/// `hr_width` x `hr_height`.
pub open spec fn higher_res_margin_spec(margin: Rect, hr_width: u32, hr_height: u32) -> Rect {
    let left = 2 * margin.left;
    let top = 2 * margin.top;
    let right = if left + 2 * margin.width < hr_width { left + 2 * margin.width } else { hr_width as int };
    let bottom = if top + 2 * margin.height < hr_height { top + 2 * margin.height } else { hr_height as int };
    Rect { left: left as i32, top: top as i32, width: (right - left) as u32, height: (bottom - top) as u32 }
}

/// Maps a margin box to the finer image it is measured in.
pub fn higher_res_margin(margin: &Rect, hr_width: u32, hr_height: u32) -> (r: Rect)
    requires
        0 <= margin.left,
        0 <= margin.top,
        margin.width > 0,
        margin.height > 0,
        2 * margin.left < hr_width,
        2 * margin.top < hr_height,
        2 * margin.left + 2 * margin.width <= i32::MAX,
        2 * margin.top + 2 * margin.height <= i32::MAX,
    ensures
        r == higher_res_margin_spec(*margin, hr_width, hr_height),
        r.width > 0,
        r.height > 0,
{
    let left = margin.left as u32 * 2;
    let top = margin.top as u32 * 2;
    let width = margin.width * 2;
    let height = margin.height * 2;
    let right = if left + width < hr_width { left + width } else { hr_width };
    let bottom = if top + height < hr_height { top + height } else { hr_height };
    Rect { left: left as i32, top: top as i32, width: right - left, height: bottom - top }
}

/// The smallest and largest pixel values of a non-empty list bound every
/// value of the list, and each is the value of one of its pixels.
pub proof fn pixel_range_is_attained(s: Seq<(i32, i32, u8)>)
    requires
        s.len() > 0,
    ensures
        px_min(s) <= px_max(s),
        forall|i: int| 0 <= i < s.len() ==> px_min(s) <= (#[trigger] s[i]).2 <= px_max(s),
        exists|i: int| 0 <= i < s.len() && (#[trigger] s[i]).2 == px_min(s),
        exists|j: int| 0 <= j < s.len() && (#[trigger] s[j]).2 == px_max(s),
    decreases s.len(),
{
    if s.len() == 1 {
        assert(s.drop_last().len() == 0);
        assert(s[0] == s.last());
        assert(s[0].2 == px_min(s));
        assert(px_max(s.drop_last()) == 0);
        assert(s[0].2 == px_max(s));
    } else {
        let d = s.drop_last();
        pixel_range_is_attained(d);
        assert forall|i: int| 0 <= i < s.len() implies px_min(s) <= (#[trigger] s[i]).2 <= px_max(s) by {
            if i < s.len() - 1 {
                assert(s[i] == d[i]);
            }
        }
        let a = choose|i: int| 0 <= i < d.len() && (#[trigger] d[i]).2 == px_min(d);
        let b = choose|j: int| 0 <= j < d.len() && (#[trigger] d[j]).2 == px_max(d);
        assert(s[a] == d[a] && s[b] == d[b]);
        assert(s[s.len() - 1] == s.last());
        if (s.last().2 as int) < px_min(d) {
            assert(s[s.len() - 1].2 == px_min(s));
        } else {
            assert(s[a].2 == px_min(s));
        }
        if (s.last().2 as int) > px_max(d) {
            assert(s[s.len() - 1].2 == px_max(s));
        } else {
            assert(s[b].2 == px_max(s));
        }
    }
}

proof fn lemma_cand_min_le_max(s: Seq<CandidateFrom1D>, horizontal: bool)
    requires
        s.len() > 0,
    ensures
        cand_min(s, horizontal) <= cand_max(s, horizontal),
    decreases s.len(),
{
    if s.len() > 1 {
        lemma_cand_min_le_max(s.drop_last(), horizontal);
    }
}

/// When the star gate passes a blob, the reported perimeter minimum and maximum
/// bound every pixel on the border of the perimeter box, and each is the
/// value of some border pixel; so the uniformity spread `max - min` is the
/// true spread of the ring.
pub proof fn gate_perimeter_range(c: Seq<CandidateFrom1D>, img: GrayImage, max_width: u32, max_height: u32)
    requires
        c.len() > 0,
    ensures
        gate_outcome(c, img, max_width, max_height) matches Some(g) ==> {
            &&& g.perimeter_min <= g.perimeter_max
            &&& forall|i: int| 0 <= i < perimeter_of(img, g.perimeter).len() ==>
                g.perimeter_min <= (#[trigger] perimeter_of(img, g.perimeter)[i]).2 <= g.perimeter_max
            &&& exists|i: int| 0 <= i < perimeter_of(img, g.perimeter).len()
                && (#[trigger] perimeter_of(img, g.perimeter)[i]).2 == g.perimeter_min
            &&& exists|j: int| 0 <= j < perimeter_of(img, g.perimeter).len()
                && (#[trigger] perimeter_of(img, g.perimeter)[j]).2 == g.perimeter_max
        },
{
    if gate_outcome(c, img, max_width, max_height) is Some {
        lemma_cand_min_le_max(c, true);
        lemma_cand_min_le_max(c, false);
        let core = core_box(c);
        let perimeter = grown(core, 3);
        assert(core.width >= 1 && core.height >= 1);
        assert(perimeter.width > 0 && perimeter.height > 0);
        lemma_box_counts(img, perimeter);
        let px = perimeter_of(img, perimeter);
        pixel_range_is_attained(px);
        lemma_px_u8(px);
        let g = gate_outcome(c, img, max_width, max_height)->Some_0;
        assert(g.perimeter == perimeter);
        assert(g.perimeter_min == px_min(px));
        assert(g.perimeter_max == px_max(px));
    }
}

proof fn lemma_px_u8(s: Seq<(i32, i32, u8)>)
    requires
        s.len() > 0,
    ensures
        0 <= px_min(s) <= 255,
        0 <= px_max(s) <= 255,
{
    pixel_range_is_attained(s);
}

/// When the star gate passes a blob: its core box holds every candidate and fits
/// the size limits, the perimeter box (the core grown by 3) lies inside the
/// image, the core's statistics are those of its pixels, and the core is
/// strictly brighter on average than the margin ring around it.
pub proof fn gate_passes_only_bright_inner_spots(c: Seq<CandidateFrom1D>, img: GrayImage, max_width: u32, max_height: u32)
    requires
        c.len() > 0,
    ensures
        gate_outcome(c, img, max_width, max_height) matches Some(g) ==> {
            &&& forall|i: int| 0 <= i < c.len() ==> g.core.left <= (#[trigger] c[i]).x <= g.core.right_col()
                && g.core.top <= c[i].y <= g.core.bottom_row()
            &&& 1 <= g.core.width <= max_width
            &&& 1 <= g.core.height <= max_height
            &&& g.perimeter.left == g.core.left - 3 && g.perimeter.top == g.core.top - 3
            &&& g.perimeter.width == g.core.width + 6 && g.perimeter.height == g.core.height + 6
            &&& g.perimeter.inside(img)
            &&& g.core_sum == px_sum(roi_pixels(img, g.core))
            &&& g.core_count == g.core.width * g.core.height
            &&& px_sum(perimeter_of(img, g.margin)) * g.core_count
                < g.core_sum * perimeter_of(img, g.margin).len()
        },
{
    if gate_outcome(c, img, max_width, max_height) is Some {
        lemma_cand_min_le_max(c, true);
        lemma_cand_min_le_max(c, false);
        lemma_cand_bounds(c, true);
        lemma_cand_bounds(c, false);
        let core = core_box(c);
        let g = gate_outcome(c, img, max_width, max_height)->Some_0;
        assert(g.core == core);
        assert(cand_min(c, true) >= 3 && cand_min(c, false) >= 3);
        assert(cand_max(c, true) + 3 < img.w() && cand_max(c, false) + 3 < img.h());
        assert(img.w() <= i32::MAX && img.h() <= i32::MAX);
        assert(core.left == cand_min(c, true) && core.top == cand_min(c, false));
        assert(core.width == cand_max(c, true) - cand_min(c, true) + 1);
        assert(core.height == cand_max(c, false) - cand_min(c, false) + 1);
        assert(core.width >= 1 && core.height >= 1);
        lemma_box_counts(img, core);
        assert(g.perimeter == grown(core, 3));
        assert(g.perimeter.inside(img));
        assert(g.margin == grown(core, 2));
        assert((core.width as int) * (core.height as int) <= 0x8000_0000int * 0x8000_0000int) by (nonlinear_arith)
            requires
                1 <= core.width <= 0x8000_0000int,
                1 <= core.height <= 0x8000_0000int,
        ;
        lemma_px_sum_bound(roi_pixels(img, core));
        assert(g.core_count == core.width * core.height);
        assert(g.core_sum == px_sum(roi_pixels(img, core)));
        assert(forall|i: int| 0 <= i < c.len() ==> g.core.left <= (#[trigger] c[i]).x <= g.core.right_col()
            && g.core.top <= c[i].y <= g.core.bottom_row());
    }
}

proof fn lemma_cand_bounds(s: Seq<CandidateFrom1D>, horizontal: bool)
    ensures
        forall|i: int| 0 <= i < s.len() ==> cand_min(s, horizontal)
            <= (if horizontal { (#[trigger] s[i]).x as int } else { s[i].y as int }) <= cand_max(s, horizontal),
    decreases s.len(),
{
    if s.len() > 1 {
        let d = s.drop_last();
        lemma_cand_bounds(d, horizontal);
        assert forall|i: int| 0 <= i < s.len() implies cand_min(s, horizontal)
            <= (if horizontal { (#[trigger] s[i]).x as int } else { s[i].y as int }) <= cand_max(s, horizontal) by {
            if i < s.len() - 1 {
                assert(s[i] == d[i]);
            }
        }
    }
}

} // verus!
