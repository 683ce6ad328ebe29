//! Dissimilarity between one cell of a target image and one candidate image.
//!
//! The error of a candidate against a cell is the sum, over the pixels of the cell and the
//! three channels, of the squared channel difference, divided by the number of pixels of the
//! cell. The channel count does not enter the divisor.

use crate::raster::{Image, RasterView};
use vstd::prelude::*;

verus! {

/// Largest error a single pixel can contribute: three channels that differ by `u16::MAX`.
pub const MAX_PIXEL_ERROR: u64 = 12_884_508_675;

/// Square of a channel difference.
pub open spec fn squared(d: int) -> int {
    d * d
}

/// Error of pixel `(i, j)` of the candidate against pixel `(x0 + i, y0 + j)` of the target.
pub open spec fn pixel_error(
    target: RasterView,
    fill: RasterView,
    x0: int,
    y0: int,
    i: int,
    j: int,
) -> int {
    squared(target.sample(x0 + i, y0 + j, 0) - fill.sample(i, j, 0)) + squared(
        target.sample(x0 + i, y0 + j, 1) - fill.sample(i, j, 1),
    ) + squared(target.sample(x0 + i, y0 + j, 2) - fill.sample(i, j, 2))
}

/// Summed error of the first `n` pixels of row `j` of the candidate.
pub open spec fn row_error(
    target: RasterView,
    fill: RasterView,
    x0: int,
    y0: int,
    j: int,
    n: nat,
) -> int
    decreases n,
{
    if n == 0 {
        0
    } else {
        row_error(target, fill, x0, y0, j, (n - 1) as nat) + pixel_error(
            target,
            fill,
            x0,
            y0,
            n - 1,
            j,
        )
    }
}

/// Summed error of the first `m` rows of the candidate.
pub open spec fn rows_error(target: RasterView, fill: RasterView, x0: int, y0: int, m: nat) -> int
    decreases m,
{
    if m == 0 {
        0
    } else {
        rows_error(target, fill, x0, y0, (m - 1) as nat) + row_error(
            target,
            fill,
            x0,
            y0,
            m - 1,
            fill.width,
        )
    }
}

/// Error of the candidate `fill` against the cell of `target` whose top-left pixel is
/// `(x0, y0)`: the summed squared channel differences divided by the pixel count of the cell.
/// A candidate without pixels has error 0.
pub open spec fn cell_error(target: RasterView, fill: RasterView, x0: int, y0: int) -> int {
    let pixels = fill.width * fill.height;
    if pixels == 0 {
        0
    } else {
        rows_error(target, fill, x0, y0, fill.height) / (pixels as int)
    }
}

/// The candidate `fill`, placed with its top-left pixel on `(x0, y0)`, lies inside `target`.
pub open spec fn fits_at(target: RasterView, fill: RasterView, x0: int, y0: int) -> bool {
    0 <= x0 && 0 <= y0 && x0 + fill.width <= target.width && y0 + fill.height <= target.height
}

/// The candidate `fill` equals, sample by sample, the cell of `target` at `(x0, y0)`.
pub open spec fn matches_cell(target: RasterView, fill: RasterView, x0: int, y0: int) -> bool {
    forall|i: int, j: int, c: int|
        fill.contains(i, j) && 0 <= c < 3 ==> #[trigger] fill.sample(i, j, c) == target.sample(
            x0 + i,
            y0 + j,
            c,
        )
}

/// A squared difference of two channel values is at most `u16::MAX` squared.
pub proof fn lemma_squared_bound(a: u16, b: u16)
    ensures
        0 <= squared(a - b) <= 65535 * 65535,
        squared(a - b) == squared(b - a),
{
    assert(0 <= (a - b) * (a - b) <= 65535 * 65535 && (a - b) * (a - b) == (b - a) * (b - a))
        by (nonlinear_arith)
        requires
            -65535 <= a - b <= 65535,
    ;
}

/// The error of one pixel lies between 0 and `MAX_PIXEL_ERROR`.
pub proof fn lemma_pixel_error_bound(
    target: RasterView,
    fill: RasterView,
    x0: int,
    y0: int,
    i: int,
    j: int,
)
    ensures
        0 <= pixel_error(target, fill, x0, y0, i, j) <= MAX_PIXEL_ERROR,
{
    lemma_squared_bound(target.sample(x0 + i, y0 + j, 0), fill.sample(i, j, 0));
    lemma_squared_bound(target.sample(x0 + i, y0 + j, 1), fill.sample(i, j, 1));
    lemma_squared_bound(target.sample(x0 + i, y0 + j, 2), fill.sample(i, j, 2));
}

/// The summed error of `n` pixels of a row is at most `n` times `MAX_PIXEL_ERROR`.
pub proof fn lemma_row_error_bound(
    target: RasterView,
    fill: RasterView,
    x0: int,
    y0: int,
    j: int,
    n: nat,
)
    ensures
        0 <= row_error(target, fill, x0, y0, j, n) <= n * MAX_PIXEL_ERROR,
    decreases n,
{
    if n > 0 {
        lemma_row_error_bound(target, fill, x0, y0, j, (n - 1) as nat);
        lemma_pixel_error_bound(target, fill, x0, y0, n - 1, j);
    }
}

/// The summed error of `m` rows is at most `m * width` times `MAX_PIXEL_ERROR`.
pub proof fn lemma_rows_error_bound(target: RasterView, fill: RasterView, x0: int, y0: int, m: nat)
    ensures
        0 <= rows_error(target, fill, x0, y0, m) <= m * fill.width * MAX_PIXEL_ERROR,
    decreases m,
{
    if m > 0 {
        lemma_rows_error_bound(target, fill, x0, y0, (m - 1) as nat);
        lemma_row_error_bound(target, fill, x0, y0, m - 1, fill.width);
        assert((m - 1) * fill.width * MAX_PIXEL_ERROR + fill.width * MAX_PIXEL_ERROR == m
            * fill.width * MAX_PIXEL_ERROR) by (nonlinear_arith);
    }
}

/// The error of a candidate against a cell lies between 0 and `MAX_PIXEL_ERROR`.
pub proof fn lemma_cell_error_bound(target: RasterView, fill: RasterView, x0: int, y0: int)
    ensures
        0 <= cell_error(target, fill, x0, y0) <= MAX_PIXEL_ERROR,
{
    let pixels = (fill.width * fill.height) as int;
    if pixels != 0 {
        let sum = rows_error(target, fill, x0, y0, fill.height);
        lemma_rows_error_bound(target, fill, x0, y0, fill.height);
        assert(fill.height * fill.width * MAX_PIXEL_ERROR == pixels * MAX_PIXEL_ERROR)
            by (nonlinear_arith)
            requires
                pixels == fill.width * fill.height,
        ;
        assert(0 <= sum / pixels <= MAX_PIXEL_ERROR) by (nonlinear_arith)
            requires
                pixels > 0,
                0 <= sum <= pixels * MAX_PIXEL_ERROR,
        ;
    }
}

/// A row of a candidate that equals its cell has error 0.
proof fn lemma_matching_row(target: RasterView, fill: RasterView, x0: int, y0: int, j: int, n: nat)
    requires
        matches_cell(target, fill, x0, y0),
        0 <= j < fill.height,
        n <= fill.width,
    ensures
        row_error(target, fill, x0, y0, j, n) == 0,
    decreases n,
{
    if n > 0 {
        lemma_matching_row(target, fill, x0, y0, j, (n - 1) as nat);
        assert(fill.sample(n - 1, j, 2) == target.sample(x0 + (n - 1), y0 + j, 2));
    }
}

/// The first rows of a candidate that equals its cell have error 0.
proof fn lemma_matching_rows(target: RasterView, fill: RasterView, x0: int, y0: int, m: nat)
    requires
        matches_cell(target, fill, x0, y0),
        m <= fill.height,
    ensures
        rows_error(target, fill, x0, y0, m) == 0,
    decreases m,
{
    if m > 0 {
        lemma_matching_rows(target, fill, x0, y0, (m - 1) as nat);
        lemma_matching_row(target, fill, x0, y0, m - 1, fill.width);
    }
}

/// A candidate that equals its target cell pixel for pixel has error 0.
pub proof fn lemma_identical_candidate_has_no_error(
    target: RasterView,
    fill: RasterView,
    x0: int,
    y0: int,
)
    requires
        matches_cell(target, fill, x0, y0),
    ensures
        cell_error(target, fill, x0, y0) == 0,
{
    lemma_matching_rows(target, fill, x0, y0, fill.height);
}

/// Squared difference of two channel values.
fn channel_error(a: u16, b: u16) -> (e: u64)
    ensures
        e == squared(a - b),
        e <= 65535 * 65535,
{
    proof {
        lemma_squared_bound(a, b);
    }
    let d: u64 = if a >= b { (a - b) as u64 } else { (b - a) as u64 };
    d * d
}

/// Scores the candidate `fill_img` against the cell of `target_img` whose top-left pixel is
/// `(x_start, y_start)`. Lower is more similar; a candidate equal to its cell scores 0.
pub fn squared_error(target_img: &Image, fill_img: &Image, x_start: u32, y_start: u32) -> (err: u64)
    requires
        fits_at(target_img@, fill_img@, x_start as int, y_start as int),
    ensures
        err == cell_error(target_img@, fill_img@, x_start as int, y_start as int),
        err <= MAX_PIXEL_ERROR,
        matches_cell(target_img@, fill_img@, x_start as int, y_start as int) ==> err == 0,
{
    proof {
        if matches_cell(target_img@, fill_img@, x_start as int, y_start as int) {
            lemma_identical_candidate_has_no_error(
                target_img@,
                fill_img@,
                x_start as int,
                y_start as int,
            );
        }
    }
    let (w, h) = fill_img.dimensions();
    let ghost t = target_img@;
    let ghost f = fill_img@;
    let ghost x0 = x_start as int;
    let ghost y0 = y_start as int;
    proof {
        target_img.lemma_well_formed();
    }
    let mut total: u128 = 0;
    let mut j: u32 = 0;
    while j < h
        invariant
            j <= h,
            t.width <= u32::MAX,
            t.height <= u32::MAX,
            w == f.width,
            h == f.height,
            t == target_img@,
            f == fill_img@,
            x0 == x_start,
            y0 == y_start,
            fits_at(t, f, x0, y0),
            total == rows_error(t, f, x0, y0, j as nat),
            total <= j * 0x3_0000_0000_0000_0000,
        decreases h - j,
    {
        let mut row: u128 = 0;
        let mut i: u32 = 0;
        while i < w
            invariant
                i <= w,
                j < h,
                t.width <= u32::MAX,
                t.height <= u32::MAX,
                w == f.width,
                h == f.height,
                t == target_img@,
                f == fill_img@,
                x0 == x_start,
                y0 == y_start,
                fits_at(t, f, x0, y0),
                row == row_error(t, f, x0, y0, j as int, i as nat),
                row <= i * MAX_PIXEL_ERROR,
            decreases w - i,
        {
            let wanted = target_img.get_pixel(x_start + i, y_start + j);
            let offered = fill_img.get_pixel(i, j);
            let e0 = channel_error(wanted[0], offered[0]);
            let e1 = channel_error(wanted[1], offered[1]);
            let e2 = channel_error(wanted[2], offered[2]);
            row = row + (e0 as u128 + e1 as u128 + e2 as u128);
            i = i + 1;
        }
        total = total + row;
        j = j + 1;
    }
    assert((w as int) * (h as int) <= 0xffff_ffff * 0xffff_ffff) by (nonlinear_arith)
        requires
            0 <= w <= 0xffff_ffff,
            0 <= h <= 0xffff_ffff,
    ;
    let pixels: u128 = (w as u128) * (h as u128);
    if pixels == 0 {
        0
    } else {
        proof {
            lemma_cell_error_bound(t, f, x0, y0);
        }
        (total / pixels) as u64
    }
}

} // verus!
