//! The compositor: copies the chosen candidates into the output canvas, one cell each.

use crate::matrix::lemma_cell_span;
use crate::progress::{reports_before_each, Phase, Progress};
use crate::raster::{Image, RasterView};
use crate::score::fits_at;
use vstd::prelude::*;

verus! {

/// Pixel `(x, y)` lies in the window of `w` x `h` pixels whose top-left pixel is `(x0, y0)`.
pub open spec fn in_window(x: int, y: int, x0: int, y0: int, w: int, h: int) -> bool {
    x0 <= x < x0 + w && y0 <= y < y0 + h
}

/// `after` is `before` with `fill` copied over the window whose top-left pixel is `(x0, y0)`.
pub open spec fn is_pasted(
    after: RasterView,
    before: RasterView,
    fill: RasterView,
    x0: int,
    y0: int,
) -> bool {
    &&& after.wf()
    &&& after.width == before.width
    &&& after.height == before.height
    &&& forall|x: int, y: int, c: int|
        before.contains(x, y) && 0 <= c < 3 ==> #[trigger] after.sample(x, y, c) == (if in_window(
            x,
            y,
            x0,
            y0,
            fill.width as int,
            fill.height as int,
        ) {
            fill.sample(x - x0, y - y0, c)
        } else {
            before.sample(x, y, c)
        })
}

/// Copies `fill_img` into `target_img` with its top-left pixel on `(x_start, y_start)`.
pub fn insert_sub_img(target_img: &mut Image, fill_img: &Image, x_start: u32, y_start: u32)
    requires
        fits_at(old(target_img)@, fill_img@, x_start as int, y_start as int),
    ensures
        is_pasted(final(target_img)@, old(target_img)@, fill_img@, x_start as int, y_start as int),
{
    let (w, h) = fill_img.dimensions();
    let ghost before = target_img@;
    proof {
        target_img.lemma_well_formed();
    }
    let ghost fill = fill_img@;
    let ghost x0 = x_start as int;
    let ghost y0 = y_start as int;
    let mut i: u32 = 0;
    while i < w
        invariant
            i <= w,
            w == fill.width,
            h == fill.height,
            fill == fill_img@,
            x0 == x_start,
            y0 == y_start,
            fits_at(before, fill, x0, y0),
            before.width <= u32::MAX,
            before.height <= u32::MAX,
            target_img@.width == before.width,
            target_img@.height == before.height,
            forall|x: int, y: int, c: int|
                before.contains(x, y) && 0 <= c < 3 ==> #[trigger] target_img@.sample(x, y, c) == (
                if in_window(x, y, x0, y0, i as int, h as int) {
                    fill.sample(x - x0, y - y0, c)
                } else {
                    before.sample(x, y, c)
                }),
        decreases w - i,
    {
        let mut j: u32 = 0;
        while j < h
            invariant
                i < w,
                j <= h,
                w == fill.width,
                h == fill.height,
                fill == fill_img@,
                x0 == x_start,
                y0 == y_start,
                fits_at(before, fill, x0, y0),
                before.width <= u32::MAX,
                before.height <= u32::MAX,
                target_img@.width == before.width,
                target_img@.height == before.height,
                forall|x: int, y: int, c: int|
                    before.contains(x, y) && 0 <= c < 3 ==> #[trigger] target_img@.sample(x, y, c)
                        == (if in_window(x, y, x0, y0, i as int, h as int) || (x == x0 + i && y0
                        <= y < y0 + j) {
                        fill.sample(x - x0, y - y0, c)
                    } else {
                        before.sample(x, y, c)
                    }),
            decreases h - j,
        {
            let x = x_start + i;
            let y = y_start + j;
            let px = fill_img.get_pixel(i, j);
            target_img.put_pixel(x, y, px);
            j = j + 1;
        }
        i = i + 1;
    }
    proof {
        target_img.lemma_well_formed();
    }
}

/// The views of the images of a grid, row by row.
pub open spec fn tile_views(sub_imgs: Seq<Vec<&Image>>) -> Seq<Seq<RasterView>> {
    sub_imgs.map_values(|row: Vec<&Image>| row@.map_values(|img: &Image| img@))
}

/// Number of images in the first `n` rows of a grid.
pub open spec fn tile_count(tiles: Seq<Seq<RasterView>>, n: nat) -> nat
    decreases n,
{
    if n == 0 {
        0
    } else {
        tile_count(tiles, (n - 1) as nat) + tiles[n - 1].len()
    }
}

/// Every image of the grid is `w` x `h` pixels, and the grid, laid out from the top-left
/// pixel of `canvas` in cells of that size, lies inside `canvas`.
pub open spec fn tiles_fit(tiles: Seq<Seq<RasterView>>, canvas: RasterView, w: nat, h: nat) -> bool {
    &&& tiles.len() * h <= canvas.height
    &&& forall|r: int| 0 <= r < tiles.len() ==> (#[trigger] tiles[r]).len() * w <= canvas.width
    &&& forall|r: int, col: int|
        0 <= r < tiles.len() && 0 <= col < tiles[r].len() ==> (#[trigger] tiles[r][col]).width == w
            && tiles[r][col].height == h
}

/// Pixel `(x, y)` lies in the cell in row `r`, column `col` of a grid of `w` x `h` cells.
pub open spec fn in_cell(x: int, y: int, r: int, col: int, w: int, h: int) -> bool {
    in_window(x, y, col * w, r * h, w, h)
}

/// Cell `(r, col)` comes before cell `(r_end, col_end)` in row-major order.
pub open spec fn cell_before(r: int, col: int, r_end: int, col_end: int) -> bool {
    r < r_end || (r == r_end && col < col_end)
}

/// Pixel `(x, y)` lies in a cell of the grid that comes before cell `(r_end, col_end)`.
pub open spec fn covered_before(
    tiles: Seq<Seq<RasterView>>,
    w: int,
    h: int,
    x: int,
    y: int,
    r_end: int,
    col_end: int,
) -> bool {
    exists|r: int, col: int|
        0 <= r < tiles.len() && 0 <= col < tiles[r].len() && cell_before(r, col, r_end, col_end)
            && #[trigger] in_cell(x, y, r, col, w, h)
}

/// `after` is `before` with every image of the grid that comes before cell
/// `(r_end, col_end)` copied into its cell.
pub open spec fn is_tiled_before(
    after: RasterView,
    before: RasterView,
    tiles: Seq<Seq<RasterView>>,
    w: nat,
    h: nat,
    r_end: int,
    col_end: int,
) -> bool {
    &&& after.wf()
    &&& after.width == before.width
    &&& after.height == before.height
    &&& forall|r: int, col: int, i: int, j: int, c: int|
        0 <= r < tiles.len() && 0 <= col < tiles[r].len() && cell_before(r, col, r_end, col_end)
            && 0 <= i < w && 0 <= j < h && 0 <= c < 3 ==> after.sample(col * w + i, r * h + j, c)
            == #[trigger] tiles[r][col].sample(i, j, c)
    &&& forall|x: int, y: int, c: int|
        before.contains(x, y) && 0 <= c < 3 && !covered_before(
            tiles,
            w as int,
            h as int,
            x,
            y,
            r_end,
            col_end,
        ) ==> #[trigger] after.sample(x, y, c) == before.sample(x, y, c)
}

/// `after` is `before` with every image of the grid copied into its cell; what lies in no
/// cell is unchanged.
pub open spec fn is_tiled(
    after: RasterView,
    before: RasterView,
    tiles: Seq<Seq<RasterView>>,
    w: nat,
    h: nat,
) -> bool {
    is_tiled_before(after, before, tiles, w, h, tiles.len() as int, 0)
}

/// Cells of a grid that differ in their index along an axis do not overlap along it.
pub proof fn lemma_cells_apart(size: int, a: int, b: int)
    requires
        0 <= a < b,
        0 <= size,
    ensures
        a * size + size <= b * size,
{
    assert(a * size + size <= b * size) by (nonlinear_arith)
        requires
            0 <= a < b,
            0 <= size,
    ;
}

/// Copying one more image into its cell extends a tiling by that cell.
proof fn lemma_tile_step(
    after: RasterView,
    prev: RasterView,
    before: RasterView,
    tiles: Seq<Seq<RasterView>>,
    w: nat,
    h: nat,
    r: int,
    col: int,
)
    requires
        tiles_fit(tiles, before, w, h),
        0 <= r < tiles.len(),
        0 <= col < tiles[r].len(),
        is_tiled_before(prev, before, tiles, w, h, r, col),
        is_pasted(after, prev, tiles[r][col], col * w, r * h),
    ensures
        is_tiled_before(after, before, tiles, w, h, r, col + 1),
{
    assert forall|r2: int, c2: int, i: int, j: int, c: int|
        0 <= r2 < tiles.len() && 0 <= c2 < tiles[r2].len() && cell_before(r2, c2, r, col + 1) && 0
            <= i < w && 0 <= j < h && 0 <= c < 3 implies after.sample(c2 * w + i, r2 * h + j, c)
        == #[trigger] tiles[r2][c2].sample(i, j, c) by {
        lemma_cell_span(tiles[r2].len() as int, w as int, c2);
        lemma_cell_span(tiles.len() as int, h as int, r2);
        if r2 < r {
            lemma_cells_apart(h as int, r2, r);
        } else if c2 < col {
            lemma_cells_apart(w as int, c2, col);
        }
    }
    assert forall|x: int, y: int, c: int|
        before.contains(x, y) && 0 <= c < 3 && !covered_before(
            tiles,
            w as int,
            h as int,
            x,
            y,
            r,
            col + 1,
        ) implies #[trigger] after.sample(x, y, c) == before.sample(x, y, c) by {
        if in_window(x, y, col * w, r * h, w as int, h as int) {
            assert(in_cell(x, y, r, col, w as int, h as int));
        }
    }
}

/// Copies every image of the grid `sub_imgs` into its cell of `target_img`. The cells have
/// the size of the images and are laid out from the top-left pixel, row by row.
///
/// Announces each image before it is copied.
#[verifier::loop_isolation(false)]
pub fn insert_sub_imgs(target_img: &mut Image, sub_imgs: &[Vec<&Image>], progress: &mut Progress)
    requires
        sub_imgs@.len() > 0,
        sub_imgs@[0]@.len() > 0,
        tiles_fit(
            tile_views(sub_imgs@),
            old(target_img)@,
            sub_imgs@[0]@[0]@.width,
            sub_imgs@[0]@[0]@.height,
        ),
        tile_count(tile_views(sub_imgs@), sub_imgs@.len()) <= usize::MAX,
    ensures
        is_tiled(
            final(target_img)@,
            old(target_img)@,
            tile_views(sub_imgs@),
            sub_imgs@[0]@[0]@.width,
            sub_imgs@[0]@[0]@.height,
        ),
        final(progress).has_announced(
            *old(progress),
            reports_before_each(
                Phase::InsertingImages,
                tile_count(tile_views(sub_imgs@), sub_imgs@.len()),
            ),
        ),
{
    let ghost tiles = tile_views(sub_imgs@);
    let ghost before = target_img@;
    let ghost start = *progress;
    let (w, h) = sub_imgs[0][0].dimensions();
    proof {
        target_img.lemma_well_formed();
    }

    let mut total: usize = 0;
    let mut r: usize = 0;
    while r < sub_imgs.len()
        invariant
            r <= sub_imgs.len(),
            total == tile_count(tiles, r as nat),
        decreases sub_imgs.len() - r,
    {
        proof {
            lemma_tile_count_grows(tiles, (r + 1) as nat, sub_imgs@.len());
        }
        total = total + sub_imgs[r].len();
        r = r + 1;
    }
    let ghost reports = reports_before_each(Phase::InsertingImages, total as nat);
    proof {
        start.lemma_announced_nothing(reports);
    }

    let mut cur: usize = 0;
    let mut x_from: u32 = 0;
    let mut y_from: u32 = 0;
    let mut r: usize = 0;
    while r < sub_imgs.len()
        invariant
            r <= sub_imgs.len(),
            x_from == 0,
            y_from == r * h,
            cur == tile_count(tiles, r as nat),
            is_tiled_before(target_img@, before, tiles, w as nat, h as nat, r as int, 0),
            progress.has_announced(start, reports.take(cur as int)),
        decreases sub_imgs.len() - r,
    {
        let sub_img_row = &sub_imgs[r];
        proof {
            lemma_tile_count_grows(tiles, (r + 1) as nat, sub_imgs@.len());
            lemma_cell_span(sub_imgs@.len() as int, h as int, r as int);
        }
        let mut col: usize = 0;
        while col < sub_img_row.len()
            invariant
                col <= sub_img_row.len(),
                x_from == col * w,
                y_from == r * h,
                cur == tile_count(tiles, r as nat) + col,
                is_tiled_before(target_img@, before, tiles, w as nat, h as nat, r as int, col as int),
                progress.has_announced(start, reports.take(cur as int)),
            decreases sub_img_row.len() - col,
        {
            let sub_img = sub_img_row[col];
            let ghost mid = *progress;
            progress.notify(cur, total, Phase::InsertingImages);
            proof {
                progress.lemma_announced_next(mid, start, reports, cur as int);
                assert(tiles[r as int][col as int] == sub_img@);
                lemma_cell_span(sub_img_row@.len() as int, w as int, col as int);
            }
            cur = cur + 1;
            let ghost prev = target_img@;
            insert_sub_img(target_img, sub_img, x_from, y_from);
            proof {
                lemma_tile_step(
                    target_img@,
                    prev,
                    before,
                    tiles,
                    w as nat,
                    h as nat,
                    r as int,
                    col as int,
                );
                assert((col + 1) * w == col * w + w) by (nonlinear_arith);
            }
            x_from = x_from + w;
            col = col + 1;
        }
        proof {
            assert((r + 1) * h == r * h + h) by (nonlinear_arith);
        }
        y_from = y_from + h;
        x_from = 0;
        r = r + 1;
    }
    proof {
        progress.lemma_announced_all(start, reports);
    }
}

/// The number of images in the first rows of a grid grows with the number of rows.
proof fn lemma_tile_count_grows(tiles: Seq<Seq<RasterView>>, a: nat, b: nat)
    requires
        a <= b,
    ensures
        tile_count(tiles, a) <= tile_count(tiles, b),
    decreases b,
{
    if a < b {
        lemma_tile_count_grows(tiles, a, (b - 1) as nat);
    }
}

} // verus!
