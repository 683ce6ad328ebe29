//! Making a mosaic: score, assign, compose.

use crate::assign::{
    assign_images, grid_view, is_greedy_assignment, lemma_greedy_assignment_unique,
};
use crate::compose::{insert_sub_imgs, tile_count, tile_views};
use crate::matrix::{calc_errors, grid_of, lemma_matrix_unique, views, ErrInfo, Mosaic};
use crate::progress::{reports_after_each, reports_before_each, Phase, Progress, ProgressEvent};
use crate::raster::{lemma_same_pixels_equal, Image, RasterView};
use vstd::arithmetic::div_mod::lemma_fundamental_div_mod;
use vstd::prelude::*;
use vstd::string::StringExecFns;

verus! {

/// Whether a candidate may be given to more than one cell.
#[derive(Clone, Copy, Debug, PartialEq, Eq, Structural)]
pub enum DedupPolicy {
    /// Every candidate is given to one cell at most.
    UseOnce,
    /// A candidate may be given to any number of cells.
    AllowReuse,
}

impl DedupPolicy {
    /// Candidates are given to one cell at most.
    pub open spec fn unique(self) -> bool {
        self == DedupPolicy::UseOnce
    }

    /// Candidates are given to one cell at most.
    pub fn is_unique(self) -> (unique: bool)
        ensures
            unique == self.unique(),
    {
        match self {
            DedupPolicy::UseOnce => true,
            DedupPolicy::AllowReuse => false,
        }
    }

    /// The policy that uses a candidate once exactly where `pop_used_img` holds.
    pub fn from_flag(pop_used_img: bool) -> (policy: DedupPolicy)
        ensures
            policy.unique() == pop_used_img,
    {
        if pop_used_img {
            DedupPolicy::UseOnce
        } else {
            DedupPolicy::AllowReuse
        }
    }
}

/// Why no mosaic was made.
#[derive(Clone, Copy, Debug, PartialEq, Eq, Structural)]
pub enum FillError {
    /// The pool holds fewer candidates than the grid has cells.
    TooFewImages {
        /// Number of cells of the grid.
        needed: u64,
        /// Number of candidates in the pool.
        available: usize,
    },
}

impl FillError {
    /// The text shown to the user for this error.
    pub open spec fn message_text(self) -> Seq<char> {
        "Too few images in directory, try reducing the number of horizontal and/or vertical images"@
    }

    /// The text shown to the user for this error.
    pub fn message(&self) -> (text: String)
        ensures
            text@ == self.message_text(),
    {
        String::from_str(
            "Too few images in directory, try reducing the number of horizontal and/or vertical images",
        )
    }
}

/// The images that `grid` names, cell by cell.
pub open spec fn chosen_tiles(pool: Seq<RasterView>, grid: Seq<Seq<usize>>) -> Seq<Seq<RasterView>> {
    grid.map_values(|row: Seq<usize>| row.map_values(|k: usize| pool[k as int]))
}

/// The progress reports of a run that makes a mosaic of `cells` cells: every cell before it
/// is scored, every assignment once it is committed, every cell before it is composed.
pub open spec fn fill_reports(cells: nat) -> Seq<ProgressEvent> {
    reports_before_each(Phase::CalculatingErrors, cells) + reports_after_each(
        Phase::SelectingImages,
        cells,
    ) + reports_before_each(Phase::InsertingImages, cells)
}

impl Mosaic {
    /// The grid covers the target exactly.
    pub open spec fn covers_target(self) -> bool {
        self.cols * self.cell_width == self.target.width && self.rows * self.cell_height
            == self.target.height
    }

    /// `out` has the size of the target and shows, in every cell, the candidate that `grid`
    /// names for it.
    pub open spec fn shows(self, grid: Seq<Seq<usize>>, out: RasterView) -> bool {
        &&& out.wf()
        &&& out.width == self.target.width
        &&& out.height == self.target.height
        &&& forall|i: int, j: int, x: int, y: int, c: int|
            self.has_cell(i, j) && 0 <= x < self.cell_width && 0 <= y < self.cell_height && 0 <= c
                < 3 ==> out.sample(j * self.cell_width + x, i * self.cell_height + y, c)
                == #[trigger] self.pool[grid[i][j] as int].sample(x, y, c)
    }

    /// `out` is the mosaic of this target and pool: it shows the greedy assignment of the
    /// error matrix.
    pub open spec fn is_rendering(self, unique: bool, out: RasterView) -> bool {
        exists|records: Seq<ErrInfo>, grid: Seq<Seq<usize>>|
            #![trigger self.has_matrix(records), self.shows(grid, out)]
            self.has_matrix(records) && is_greedy_assignment(
                records,
                self.rows,
                self.cols,
                self.pool.len(),
                unique,
                grid,
            ) && self.shows(grid, out)
    }

    /// Two images that show the same grid over a mosaic whose grid covers its target are the
    /// same image.
    pub proof fn lemma_shown_alike(self, grid: Seq<Seq<usize>>, a: RasterView, b: RasterView)
        requires
            self.covers_target(),
            self.shows(grid, a),
            self.shows(grid, b),
        ensures
            a == b,
    {
        let cw = self.cell_width as int;
        let ch = self.cell_height as int;
        assert forall|x: int, y: int, c: int| a.contains(x, y) && 0 <= c < 3 implies #[trigger] a.sample(
            x,
            y,
            c,
        ) == b.sample(x, y, c) by {
            let j = x / cw;
            let i = y / ch;
            lemma_fundamental_div_mod(x, cw);
            lemma_fundamental_div_mod(y, ch);
            assert(0 <= j < self.cols && j * cw + x % cw == x) by (nonlinear_arith)
                requires
                    x == cw * j + x % cw,
                    0 <= x % cw < cw,
                    0 <= x < self.cols * cw,
            ;
            assert(0 <= i < self.rows && i * ch + y % ch == y) by (nonlinear_arith)
                requires
                    y == ch * i + y % ch,
                    0 <= y % ch < ch,
                    0 <= y < self.rows * ch,
            ;
            let tile = self.pool[grid[i][j] as int];
            assert(b.sample(j * cw + x % cw, i * ch + y % ch, c) == tile.sample(x % cw, y % ch, c));
        }
        lemma_same_pixels_equal(a, b);
    }

    /// Making a mosaic is deterministic: a target and a pool have at most one mosaic.
    pub proof fn lemma_rendering_unique(self, unique: bool, a: RasterView, b: RasterView)
        requires
            self.covers_target(),
            self.is_rendering(unique, a),
            self.is_rendering(unique, b),
        ensures
            a == b,
    {
        let (ra, ga) = choose|records: Seq<ErrInfo>, grid: Seq<Seq<usize>>|
            #![trigger self.has_matrix(records), self.shows(grid, a)]
            self.has_matrix(records) && is_greedy_assignment(
                records,
                self.rows,
                self.cols,
                self.pool.len(),
                unique,
                grid,
            ) && self.shows(grid, a);
        let (rb, gb) = choose|records: Seq<ErrInfo>, grid: Seq<Seq<usize>>|
            #![trigger self.has_matrix(records), self.shows(grid, b)]
            self.has_matrix(records) && is_greedy_assignment(
                records,
                self.rows,
                self.cols,
                self.pool.len(),
                unique,
                grid,
            ) && self.shows(grid, b);
        lemma_matrix_unique(self, ra, rb);
        lemma_greedy_assignment_unique(ra, self.rows, self.cols, self.pool.len(), unique, ga, gb);
        self.lemma_shown_alike(ga, a, b);
    }
}

/// A grid whose rows all hold `cols` images holds `cols` images per row.
proof fn lemma_uniform_tile_count(tiles: Seq<Seq<RasterView>>, cols: nat, n: nat)
    requires
        n <= tiles.len(),
        forall|r: int| 0 <= r < tiles.len() ==> (#[trigger] tiles[r]).len() == cols,
    ensures
        tile_count(tiles, n) == n * cols,
    decreases n,
{
    if n > 0 {
        lemma_uniform_tile_count(tiles, cols, (n - 1) as nat);
        assert((n - 1) * cols + cols == n * cols) by (nonlinear_arith);
    }
}

/// Makes the mosaic of `target_canvas`: a grid of `grid_rows` x `grid_cols` cells of
/// `cell_width` x `cell_height` pixels, each filled with one image of `candidate_pool`.
///
/// Fails, before anything is scored, where the pool holds fewer candidates than the grid has
/// cells. Otherwise the grid must cover the canvas exactly and every candidate must have the
/// size of a cell.
#[verifier::loop_isolation(false)]
pub fn fill(
    target_canvas: &Image,
    candidate_pool: &[Image],
    grid_rows: u32,
    grid_cols: u32,
    cell_width: u32,
    cell_height: u32,
    dedup_policy: DedupPolicy,
    progress: &mut Progress,
) -> (result: Result<Image, FillError>)
    requires
        candidate_pool@.len() >= grid_rows * grid_cols ==> grid_of(
            target_canvas@,
            views(candidate_pool@),
            grid_cols,
            grid_rows,
            cell_width,
            cell_height,
        ).well_formed() && grid_of(
            target_canvas@,
            views(candidate_pool@),
            grid_cols,
            grid_rows,
            cell_width,
            cell_height,
        ).covers_target(),
    ensures
        match result {
            Err(e) => {
                &&& candidate_pool@.len() < grid_rows * grid_cols
                &&& e matches FillError::TooFewImages { needed, available }
                &&& needed == grid_rows * grid_cols
                &&& available == candidate_pool@.len()
                &&& *final(progress) == *old(progress)
            },
            Ok(out) => {
                &&& candidate_pool@.len() >= grid_rows * grid_cols
                &&& grid_of(
                    target_canvas@,
                    views(candidate_pool@),
                    grid_cols,
                    grid_rows,
                    cell_width,
                    cell_height,
                ).is_rendering(dedup_policy.unique(), out@)
                &&& final(progress).has_announced(
                    *old(progress),
                    fill_reports((grid_rows * grid_cols) as nat),
                )
            },
        },
{
    let ghost m = grid_of(
        target_canvas@,
        views(candidate_pool@),
        grid_cols,
        grid_rows,
        cell_width,
        cell_height,
    );
    assert(grid_rows * grid_cols <= 0xffff_ffff * 0xffff_ffff) by (nonlinear_arith)
        requires
            grid_rows <= 0xffff_ffff,
            grid_cols <= 0xffff_ffff,
    ;
    let n_cells: u64 = grid_rows as u64 * grid_cols as u64;
    let ghost before = *progress;
    if (candidate_pool.len() as u64) < n_cells {
        return Err(FillError::TooFewImages { needed: n_cells, available: candidate_pool.len() });
    }
    assert(grid_cols * grid_rows == grid_rows * grid_cols) by (nonlinear_arith);
    let errors = calc_errors(
        target_canvas,
        candidate_pool,
        grid_cols,
        grid_rows,
        cell_width,
        cell_height,
        progress,
    );
    let ghost scored = *progress;
    let grid = assign_images(
        errors,
        grid_cols,
        grid_rows,
        candidate_pool.len(),
        dedup_policy.is_unique(),
        progress,
    );
    let ghost assigned = *progress;
    proof {
        assigned.lemma_announced_both(
            scored,
            before,
            reports_before_each(Phase::CalculatingErrors, n_cells as nat),
            reports_after_each(Phase::SelectingImages, n_cells as nat),
        );
    }
    let ghost chosen = grid_view(grid@);
    let ghost tiles = chosen_tiles(m.pool, chosen);
    let mut out = target_canvas.clone();
    if n_cells > 0 {
        let mut sub_imgs: Vec<Vec<&Image>> = Vec::new();
        let mut i: usize = 0;
        while i < grid.len()
            invariant
                i <= grid.len(),
                sub_imgs@.len() == i,
                forall|r: int| 0 <= r < i ==> (#[trigger] sub_imgs@[r])@.len() == grid_cols,
                forall|r: int, c: int|
                    0 <= r < i && 0 <= c < grid_cols ==> (#[trigger] sub_imgs@[r]@[c])@
                        == tiles[r][c],
            decreases grid.len() - i,
        {
            let mut row: Vec<&Image> = Vec::new();
            let mut j: usize = 0;
            assert(chosen[i as int] == grid@[i as int]@);
            while j < grid[i].len()
                invariant
                    i < grid.len(),
                    j <= grid[i as int].len(),
                    row@.len() == j,
                    forall|c: int| 0 <= c < j ==> (#[trigger] row@[c])@ == tiles[i as int][c],
                decreases grid[i as int].len() - j,
            {
                let k = grid[i][j];
                row.push(&candidate_pool[k]);
                j = j + 1;
            }
            sub_imgs.push(row);
            i = i + 1;
        }
        proof {
            let held = tile_views(sub_imgs@);
            assert forall|r: int| 0 <= r < held.len() implies #[trigger] held[r] == tiles[r] by {
                assert(held[r] =~= tiles[r]);
            }
            assert(held =~= tiles);
            assert(grid_rows > 0 && grid_cols > 0) by (nonlinear_arith)
                requires
                    grid_rows * grid_cols > 0,
            ;
            lemma_uniform_tile_count(tiles, grid_cols as nat, grid_rows as nat);
        }
        insert_sub_imgs(&mut out, sub_imgs.as_slice(), progress);
        proof {
            progress.lemma_announced_both(
                assigned,
                before,
                reports_before_each(Phase::CalculatingErrors, n_cells as nat)
                    + reports_after_each(Phase::SelectingImages, n_cells as nat),
                reports_before_each(Phase::InsertingImages, n_cells as nat),
            );
            assert forall|i: int, j: int, x: int, y: int, c: int|
                m.has_cell(i, j) && 0 <= x < m.cell_width && 0 <= y < m.cell_height && 0 <= c < 3
                implies out@.sample(j * m.cell_width + x, i * m.cell_height + y, c)
                == #[trigger] m.pool[chosen[i][j] as int].sample(x, y, c) by {
                assert(out@.sample(j * m.cell_width + x, i * m.cell_height + y, c)
                    == tiles[i][j].sample(x, y, c));
            }
        }
    } else {
        proof {
            assert(grid_rows == 0 || grid_cols == 0) by (nonlinear_arith)
                requires
                    grid_rows * grid_cols == 0,
            ;
            assert(fill_reports(0) =~= reports_before_each(Phase::CalculatingErrors, 0)
                + reports_after_each(Phase::SelectingImages, 0));
        }
    }
    proof {
        out.lemma_well_formed();
        assert(m.shows(chosen, out@));
    }
    Ok(out)
}

/// Number of whole cells of length `cell` that fit into `extent` pixels.
pub open spec fn cells_along(extent: nat, cell: u32) -> nat {
    extent / (cell as nat)
}

/// The mosaic that `fill_target_img` makes of `target`: as many whole cells of
/// `sub_img_width` x `sub_img_height` pixels as fit, over the centred part of `target` that
/// they cover.
pub open spec fn centred_grid(
    target: RasterView,
    pool: Seq<RasterView>,
    sub_img_width: u32,
    sub_img_height: u32,
) -> Mosaic {
    let cols = cells_along(target.width, sub_img_width);
    let rows = cells_along(target.height, sub_img_height);
    let pad_width = target.width % (sub_img_width as nat);
    let pad_height = target.height % (sub_img_height as nat);
    Mosaic {
        target: target.window(
            (pad_width / 2) as int,
            (pad_height / 2) as int,
            (target.width - pad_width) as nat,
            (target.height - pad_height) as nat,
        ),
        pool,
        rows,
        cols,
        cell_width: sub_img_width as nat,
        cell_height: sub_img_height as nat,
    }
}

/// Makes a mosaic of `target_img` out of cells of `sub_img_width` x `sub_img_height` pixels.
///
/// The grid has as many whole cells as fit into the target; what is left over at the edges is
/// cut off evenly on both sides. Fails where `imgs` holds fewer images than the grid has
/// cells; otherwise every image must have the size of a cell. With `pop_used_img` an image is
/// used for one cell at most.
pub fn fill_target_img(
    target_img: Image,
    imgs: &[Image],
    sub_img_width: u32,
    sub_img_height: u32,
    pop_used_img: bool,
    progress: &mut Progress,
) -> (result: Result<Image, FillError>)
    requires
        sub_img_width > 0,
        sub_img_height > 0,
        imgs@.len() >= cells_along(target_img@.width, sub_img_width) * cells_along(
            target_img@.height,
            sub_img_height,
        ) ==> forall|k: int|
            0 <= k < imgs@.len() ==> (#[trigger] imgs@[k])@.width == sub_img_width
                && imgs@[k]@.height == sub_img_height,
    ensures
        match result {
            Err(e) => {
                &&& imgs@.len() < cells_along(target_img@.width, sub_img_width) * cells_along(
                    target_img@.height,
                    sub_img_height,
                )
                &&& e matches FillError::TooFewImages { needed, available }
                &&& needed == cells_along(target_img@.width, sub_img_width) * cells_along(
                    target_img@.height,
                    sub_img_height,
                )
                &&& available == imgs@.len()
                &&& *final(progress) == *old(progress)
            },
            Ok(out) => {
                &&& imgs@.len() >= cells_along(target_img@.width, sub_img_width) * cells_along(
                    target_img@.height,
                    sub_img_height,
                )
                &&& centred_grid(
                    target_img@,
                    views(imgs@),
                    sub_img_width,
                    sub_img_height,
                ).is_rendering(pop_used_img, out@)
                &&& final(progress).has_announced(
                    *old(progress),
                    fill_reports(
                        cells_along(target_img@.width, sub_img_width) * cells_along(
                            target_img@.height,
                            sub_img_height,
                        ),
                    ),
                )
            },
        },
{
    let (width, height) = target_img.dimensions();
    let n_width = width / sub_img_width;
    let n_height = height / sub_img_height;
    let pad_width = width % sub_img_width;
    let pad_height = height % sub_img_height;
    proof {
        lemma_fundamental_div_mod(width as int, sub_img_width as int);
        lemma_fundamental_div_mod(height as int, sub_img_height as int);
    }
    let cropped_width = width - pad_width;
    let cropped_height = height - pad_height;
    let ghost m = centred_grid(target_img@, views(imgs@), sub_img_width, sub_img_height);
    proof {
        assert(n_width * sub_img_width == sub_img_width * n_width) by (nonlinear_arith);
        assert(n_height * sub_img_height == sub_img_height * n_height) by (nonlinear_arith);
        assert(n_height * n_width == cells_along(target_img@.width, sub_img_width) * cells_along(
            target_img@.height,
            sub_img_height,
        )) by (nonlinear_arith)
            requires
                n_width == cells_along(target_img@.width, sub_img_width),
                n_height == cells_along(target_img@.height, sub_img_height),
        ;
    }
    let cropped = target_img.crop(pad_width / 2, pad_height / 2, cropped_width, cropped_height);
    fill(
        &cropped,
        imgs,
        n_height,
        n_width,
        sub_img_width,
        sub_img_height,
        DedupPolicy::from_flag(pop_used_img),
        progress,
    )
}

} // verus!
