//! An 8-bit grayscale image and axis-aligned pixel rectangles, with the
//! row-major pixel enumerations the star gate works on.

use vstd::prelude::*;

verus! {

/// An 8-bit grayscale image stored row-major.
pub struct GrayImage {
    width: u32,
    height: u32,
    data: Vec<u8>,
}

proof fn lemma_index_in_bounds(x: int, y: int, w: int, h: int)
    by (nonlinear_arith)
    requires
        0 <= x < w,
        0 <= y < h,
    ensures
        0 <= y * w + x < w * h,
{
}

impl GrayImage {
    #[verifier::type_invariant]
    spec fn buffer_fits(self) -> bool {
        (self.width as int) * (self.height as int) <= self.data@.len()
    }

    /// Width in pixels.
    pub closed spec fn w(self) -> nat {
        self.width as nat
    }

    /// Height in pixels.
    pub closed spec fn h(self) -> nat {
        self.height as nat
    }

    /// The pixel at column `x`, row `y`.
    pub closed spec fn px(self, x: int, y: int) -> u8 {
        self.data@[y * self.width + x]
    }

    /// Wraps a row-major buffer; `None` when the buffer holds fewer than
    /// `width * height` bytes.
    pub fn from_raw(width: u32, height: u32, data: Vec<u8>) -> (img: Option<GrayImage>)
        ensures
            img is Some <==> (width as int) * (height as int) <= data@.len(),
            img matches Some(im) ==> {
                &&& im.w() == width
                &&& im.h() == height
                &&& forall|x: int, y: int| 0 <= x < width && 0 <= y < height
                    ==> #[trigger] im.px(x, y) == data@[y * width + x]
            },
    {
        assert((width as int) * (height as int) <= 0xffff_ffffint * 0xffff_ffffint) by (nonlinear_arith)
            requires
                width <= 0xffff_ffffint,
                height <= 0xffff_ffffint,
                0 <= width,
                0 <= height,
        ;
        let needed: u128 = (width as u128) * (height as u128);
        let len = data.len();
        if needed <= len as u128 {
            let img = GrayImage { width, height, data };
            Some(img)
        } else {
            None
        }
    }

    /// Width in pixels.
    pub fn width(&self) -> (w: u32)
        ensures
            w == self.w(),
    {
        self.width
    }

    /// Height in pixels.
    pub fn height(&self) -> (h: u32)
        ensures
            h == self.h(),
    {
        self.height
    }

    /// `(width, height)` in pixels.
    pub fn dimensions(&self) -> (d: (u32, u32))
        ensures
            d.0 == self.w(),
            d.1 == self.h(),
    {
        (self.width, self.height)
    }

    /// The pixel at column `x`, row `y`.
    pub fn get_pixel(&self, x: u32, y: u32) -> (p: u8)
        requires
            x < self.w(),
            y < self.h(),
        ensures
            p == self.px(x as int, y as int),
    {
        proof {
            use_type_invariant(self);
            lemma_index_in_bounds(x as int, y as int, self.width as int, self.height as int);
        }
        let len = self.data.len();
        assert((y as int) * (self.width as int) + (x as int) < len);
        let row_start = (y as usize) * (self.width as usize);
        self.data[row_start + (x as usize)]
    }
}

/// An axis-aligned rectangle of pixels: `width` columns from `left` and
/// `height` rows from `top`.
#[derive(Debug, Clone, Copy, PartialEq, Eq, Structural)]
pub struct Rect {
    pub left: i32,
    pub top: i32,
    pub width: u32,
    pub height: u32,
}

impl Rect {
    /// Column of the rightmost pixel.
    pub open spec fn right_col(self) -> int {
        self.left + self.width - 1
    }

    /// Row of the bottom pixel.
    pub open spec fn bottom_row(self) -> int {
        self.top + self.height - 1
    }

    /// The rectangle lies inside the image (and its columns and rows are
    /// representable as `i32`).
    pub open spec fn inside(self, img: GrayImage) -> bool {
        &&& self.width > 0
        &&& self.height > 0
        &&& self.left >= 0
        &&& self.top >= 0
        &&& self.right_col() < img.w()
        &&& self.bottom_row() < img.h()
        &&& self.right_col() <= i32::MAX
        &&& self.bottom_row() <= i32::MAX
    }

    /// The rectangle with top-left corner `(left, top)` and the given size.
    pub fn new(left: i32, top: i32, width: u32, height: u32) -> (r: Rect)
        ensures
            r == (Rect { left, top, width, height }),
    {
        Rect { left, top, width, height }
    }
}

// ---------------------------------------------------------------------------
// Pixel enumerations
// ---------------------------------------------------------------------------

/// `len` pixels of row `y` starting at column `x0`, as `(x, y, value)`.
pub open spec fn row_run(img: GrayImage, x0: int, y: int, len: nat) -> Seq<(i32, i32, u8)> {
    Seq::new(len, |i: int| ((x0 + i) as i32, y as i32, img.px(x0 + i, y)))
}

/// The first `nrows` rows of the rectangle, row-major.
pub open spec fn roi_rows(img: GrayImage, roi: Rect, nrows: nat) -> Seq<(i32, i32, u8)>
    decreases nrows,
{
    if nrows == 0 {
        Seq::empty()
    } else {
        roi_rows(img, roi, (nrows - 1) as nat) + row_run(img, roi.left as int, roi.top + nrows - 1, roi.width as nat)
    }
}

/// Every pixel of the rectangle, row by row, left to right.
pub open spec fn roi_pixels(img: GrayImage, roi: Rect) -> Seq<(i32, i32, u8)> {
    roi_rows(img, roi, roi.height as nat)
}

/// The left and right border pixels of rows `top + 1 ..= top + k`.
pub open spec fn perimeter_sides(img: GrayImage, roi: Rect, k: nat) -> Seq<(i32, i32, u8)>
    decreases k,
{
    if k == 0 {
        Seq::empty()
    } else {
        let y = roi.top + k;
        let left_px = seq![(roi.left, y as i32, img.px(roi.left as int, y))];
        let right_px = if roi.width > 1 {
            seq![(roi.right_col() as i32, y as i32, img.px(roi.right_col(), y))]
        } else {
            Seq::empty()
        };
        perimeter_sides(img, roi, (k - 1) as nat) + left_px + right_px
    }
}

/// The border pixels of the rectangle: the top row, then the left and right
/// pixels of each middle row, then the bottom row.
pub open spec fn perimeter_of(img: GrayImage, roi: Rect) -> Seq<(i32, i32, u8)> {
    let top = row_run(img, roi.left as int, roi.top as int, roi.width as nat);
    if roi.height > 1 {
        top + perimeter_sides(img, roi, (roi.height - 2) as nat) + row_run(
            img,
            roi.left as int,
            roi.bottom_row(),
            roi.width as nat,
        )
    } else {
        top
    }
}

/// Appends `len` pixels of row `y` from column `x0` to `out`.
fn push_row_run(img: &GrayImage, x0: i32, y: i32, len: u32, out: &mut Vec<(i32, i32, u8)>)
    requires
        x0 >= 0,
        y >= 0,
        len > 0,
        x0 + len - 1 < img.w(),
        y < img.h(),
        x0 + len - 1 <= i32::MAX,
    ensures
        final(out)@ == old(out)@ + row_run(*img, x0 as int, y as int, len as nat),
{
    let ghost start = out@;
    let mut i: u32 = 0;
    while i < len
        invariant
            x0 >= 0,
            y >= 0,
            x0 + len - 1 < img.w(),
            y < img.h(),
            x0 + len - 1 <= i32::MAX,
            i <= len,
            out@ == start + row_run(*img, x0 as int, y as int, i as nat),
        decreases len - i,
    {
        let x = (x0 as u32) + i;
        let p = img.get_pixel(x, y as u32);
        out.push((x as i32, y, p));
        assert(out@ =~= start + row_run(*img, x0 as int, y as int, (i + 1) as nat));
        i += 1;
    }
}

/// Every pixel of `roi`, row by row, left to right, as `(x, y, value)`.
pub fn pixels_in_roi(image: &GrayImage, roi: &Rect) -> (px: Vec<(i32, i32, u8)>)
    requires
        roi.inside(*image),
    ensures
        px@ == roi_pixels(*image, *roi),
{
    let mut out: Vec<(i32, i32, u8)> = Vec::new();
    let mut k: u32 = 0;
    while k < roi.height
        invariant
            roi.inside(*image),
            k <= roi.height,
            out@ == roi_rows(*image, *roi, k as nat),
        decreases roi.height - k,
    {
        let y = ((roi.top as u32) + k) as i32;
        push_row_run(image, roi.left, y, roi.width, &mut out);
        k += 1;
    }
    out
}

/// The border pixels of `roi`: the top row, the left and right pixels of each
/// middle row, then the bottom row, as `(x, y, value)`.
pub fn perimeter_pixels(image: &GrayImage, roi: &Rect) -> (px: Vec<(i32, i32, u8)>)
    requires
        roi.inside(*image),
    ensures
        px@ == perimeter_of(*image, *roi),
{
    let mut out: Vec<(i32, i32, u8)> = Vec::new();
    push_row_run(image, roi.left, roi.top, roi.width, &mut out);
    if roi.height > 1 {
        let right = ((roi.left as u32) + roi.width - 1) as i32;
        let mut k: u32 = 1;
        while k + 1 < roi.height
            invariant
                roi.inside(*image),
                roi.height > 1,
                1 <= k <= roi.height - 1,
                right == roi.right_col(),
                out@ == row_run(*image, roi.left as int, roi.top as int, roi.width as nat)
                    + perimeter_sides(*image, *roi, (k - 1) as nat),
            decreases roi.height - k,
        {
            let y = ((roi.top as u32) + k) as i32;
            let ghost before = out@;
            out.push((roi.left, y, image.get_pixel(roi.left as u32, y as u32)));
            if roi.width > 1 {
                out.push((right, y, image.get_pixel(right as u32, y as u32)));
            }
            assert(out@ =~= row_run(*image, roi.left as int, roi.top as int, roi.width as nat)
                + perimeter_sides(*image, *roi, k as nat));
            k += 1;
        }
        let bottom = ((roi.top as u32) + roi.height - 1) as i32;
        push_row_run(image, roi.left, bottom, roi.width, &mut out);
    }
    out
}

} // verus!
