//! The error matrix: one score record for every pair of a grid cell and a candidate image.
//!
//! Records are emitted cell by cell in row-major order and, within a cell, in pool order.
//! Before emission every error is rescaled by the largest error of the whole matrix, which
//! keeps the order of any two errors.

use crate::progress::{reports_before_each, Phase, Progress};
use crate::raster::{lemma_offset_in_bounds, lemma_offsets_distinct, Image, RasterView};
use crate::score::{cell_error, fits_at, lemma_cell_error_bound, squared_error, MAX_PIXEL_ERROR};
use rayon::iter::{IntoParallelRefIterator, ParallelIterator};
use vstd::prelude::*;

verus! {

/// The dissimilarity between candidate `img_idx` and the cell in row `i_pos`, column `j_pos`.
#[derive(Clone, Copy, Debug, PartialEq, Eq, Structural)]
pub struct ErrInfo {
    /// Position of the candidate in the pool.
    pub img_idx: usize,
    /// Row of the cell.
    pub i_pos: u32,
    /// Column of the cell.
    pub j_pos: u32,
    /// Rescaled error of the worst candidate for this cell.
    pub pos_err_min: u64,
    /// Rescaled error of this candidate for this cell.
    pub err: u64,
}

/// A target image divided into a grid of equal cells, and the pool of candidates for them.
pub struct Mosaic {
    pub target: RasterView,
    pub pool: Seq<RasterView>,
    pub rows: nat,
    pub cols: nat,
    pub cell_width: nat,
    pub cell_height: nat,
}

/// The views of a sequence of images.
pub open spec fn views(imgs: Seq<Image>) -> Seq<RasterView> {
    imgs.map_values(|img: Image| img@)
}

/// Position of the record of candidate `k` for cell `(i, j)` in a matrix for a grid of `cols`
/// columns and a pool of `n` candidates.
pub open spec fn emission_index(cols: int, n: int, i: int, j: int, k: int) -> int {
    (i * cols + j) * n + k
}

/// Rescales `err` by `peak`, the largest error there is, onto the whole range of `u64`.
///
/// An error above the peak is mapped to `u64::MAX`; where the peak is 0 every error is 0.
pub open spec fn scaled_error(err: int, peak: int) -> int {
    if err > peak {
        u64::MAX as int
    } else if peak == 0 {
        0
    } else {
        err * (u64::MAX as int) / peak
    }
}

impl Mosaic {
    /// The grid lies inside the target and every candidate has the size of a cell.
    pub open spec fn well_formed(self) -> bool {
        &&& self.cols * self.cell_width <= self.target.width
        &&& self.rows * self.cell_height <= self.target.height
        &&& forall|k: int|
            0 <= k < self.pool.len() ==> (#[trigger] self.pool[k]).width == self.cell_width
                && self.pool[k].height == self.cell_height
    }

    /// `(i, j)` is a cell of the grid.
    pub open spec fn has_cell(self, i: int, j: int) -> bool {
        0 <= i < self.rows && 0 <= j < self.cols
    }

    /// `k` is a candidate of the pool.
    pub open spec fn has_candidate(self, k: int) -> bool {
        0 <= k < self.pool.len()
    }

    /// Error of candidate `k` against cell `(i, j)`, before rescaling.
    pub open spec fn raw_error(self, i: int, j: int, k: int) -> int {
        cell_error(self.target, self.pool[k], j * self.cell_width, i * self.cell_height)
    }

    /// Largest raw error among the first `n` candidates for cell `(i, j)`; 0 for none.
    pub open spec fn worst_of_first(self, i: int, j: int, n: nat) -> int
        decreases n,
    {
        if n == 0 {
            0
        } else {
            let rest = self.worst_of_first(i, j, (n - 1) as nat);
            let last = self.raw_error(i, j, n - 1);
            if last > rest {
                last
            } else {
                rest
            }
        }
    }

    /// Largest raw error among all candidates for cell `(i, j)`.
    pub open spec fn worst_in_cell(self, i: int, j: int) -> int {
        self.worst_of_first(i, j, self.pool.len())
    }

    /// Largest raw error in the first `n` cells of row `i`.
    pub open spec fn worst_in_row(self, i: int, n: nat) -> int
        decreases n,
    {
        if n == 0 {
            0
        } else {
            let rest = self.worst_in_row(i, (n - 1) as nat);
            let last = self.worst_in_cell(i, n - 1);
            if last > rest {
                last
            } else {
                rest
            }
        }
    }

    /// Largest raw error in the first `n` rows.
    pub open spec fn worst_in_rows(self, n: nat) -> int
        decreases n,
    {
        if n == 0 {
            0
        } else {
            let rest = self.worst_in_rows((n - 1) as nat);
            let last = self.worst_in_row(n - 1, self.cols);
            if last > rest {
                last
            } else {
                rest
            }
        }
    }

    /// Largest raw error of the whole matrix.
    pub open spec fn peak_error(self) -> int {
        self.worst_in_rows(self.rows)
    }

    /// The record emitted for candidate `k` and cell `(i, j)`.
    pub open spec fn record(self, i: int, j: int, k: int) -> ErrInfo {
        ErrInfo {
            img_idx: k as usize,
            i_pos: i as u32,
            j_pos: j as u32,
            pos_err_min: scaled_error(self.worst_in_cell(i, j), self.peak_error()) as u64,
            err: scaled_error(self.raw_error(i, j, k), self.peak_error()) as u64,
        }
    }

    /// `records` is the error matrix of this mosaic: it holds the record of every pair of a
    /// cell and a candidate, and holds it at the pair's emission index.
    pub open spec fn has_matrix(self, records: Seq<ErrInfo>) -> bool {
        &&& records.len() == self.rows * self.cols * self.pool.len()
        &&& forall|p: int|
            0 <= p < records.len() ==> {
                let r = #[trigger] records[p];
                &&& self.has_cell(r.i_pos as int, r.j_pos as int)
                &&& self.has_candidate(r.img_idx as int)
                &&& emission_index(
                    self.cols as int,
                    self.pool.len() as int,
                    r.i_pos as int,
                    r.j_pos as int,
                    r.img_idx as int,
                ) == p
                &&& r == self.record(r.i_pos as int, r.j_pos as int, r.img_idx as int)
            }
    }
}

/// The emission index of a pair inside the grid lies inside the matrix.
pub proof fn lemma_emission_index_in_bounds(rows: int, cols: int, n: int, i: int, j: int, k: int)
    requires
        0 <= i < rows,
        0 <= j < cols,
        0 <= k < n,
    ensures
        0 <= emission_index(cols, n, i, j, k) < rows * cols * n,
{
    lemma_offset_in_bounds(cols, rows, j, i);
    lemma_offset_in_bounds(n, rows * cols, k, i * cols + j);
}

/// Different pairs have different emission indices.
pub proof fn lemma_emission_index_injective(
    cols: int,
    n: int,
    i1: int,
    j1: int,
    k1: int,
    i2: int,
    j2: int,
    k2: int,
)
    requires
        0 <= i1,
        0 <= j1 < cols,
        0 <= k1 < n,
        0 <= i2,
        0 <= j2 < cols,
        0 <= k2 < n,
        emission_index(cols, n, i1, j1, k1) == emission_index(cols, n, i2, j2, k2),
    ensures
        i1 == i2,
        j1 == j2,
        k1 == k2,
{
    if k1 != k2 || i1 * cols + j1 != i2 * cols + j2 {
        lemma_offsets_distinct(n, k1, i1 * cols + j1, k2, i2 * cols + j2);
    }
    if i1 != i2 || j1 != j2 {
        lemma_offsets_distinct(cols, j1, i1, j2, i2);
    }
}

/// Emission order is row-major cell order, then pool order.
pub proof fn lemma_emission_index_ordered(
    cols: int,
    n: int,
    i1: int,
    j1: int,
    k1: int,
    i2: int,
    j2: int,
    k2: int,
)
    requires
        0 <= i1,
        0 <= j1 < cols,
        0 <= k1 < n,
        0 <= i2,
        0 <= j2 < cols,
        0 <= k2 < n,
    ensures
        emission_index(cols, n, i1, j1, k1) < emission_index(cols, n, i2, j2, k2) <==> (i1 < i2 || (
        i1 == i2 && (j1 < j2 || (j1 == j2 && k1 < k2)))),
{
    let c1 = i1 * cols + j1;
    let c2 = i2 * cols + j2;
    assert(c1 < c2 <==> (i1 < i2 || (i1 == i2 && j1 < j2))) by (nonlinear_arith)
        requires
            c1 == i1 * cols + j1,
            c2 == i2 * cols + j2,
            0 <= i1,
            0 <= i2,
            0 <= j1 < cols,
            0 <= j2 < cols,
    ;
    assert(c2 < c1 <==> (i2 < i1 || (i2 == i1 && j2 < j1))) by (nonlinear_arith)
        requires
            c1 == i1 * cols + j1,
            c2 == i2 * cols + j2,
            0 <= i1,
            0 <= i2,
            0 <= j1 < cols,
            0 <= j2 < cols,
    ;
    assert(c1 * n + k1 < c2 * n + k2 <==> (c1 < c2 || (c1 == c2 && k1 < k2))) by (nonlinear_arith)
        requires
            0 <= k1 < n,
            0 <= k2 < n,
    ;
}

/// A mosaic has at most one error matrix.
pub proof fn lemma_matrix_unique(m: Mosaic, a: Seq<ErrInfo>, b: Seq<ErrInfo>)
    requires
        m.has_matrix(a),
        m.has_matrix(b),
    ensures
        a == b,
{
    assert forall|p: int| 0 <= p < a.len() implies a[p] == b[p] by {
        let ra = a[p];
        let rb = b[p];
        lemma_emission_index_injective(
            m.cols as int,
            m.pool.len() as int,
            ra.i_pos as int,
            ra.j_pos as int,
            ra.img_idx as int,
            rb.i_pos as int,
            rb.j_pos as int,
            rb.img_idx as int,
        );
    }
}

/// The record of a pair stands at the pair's emission index.
pub proof fn lemma_matrix_lookup(m: Mosaic, records: Seq<ErrInfo>, i: int, j: int, k: int)
    requires
        m.has_matrix(records),
        m.has_cell(i, j),
        m.has_candidate(k),
    ensures
        0 <= emission_index(m.cols as int, m.pool.len() as int, i, j, k) < records.len(),
        records[emission_index(m.cols as int, m.pool.len() as int, i, j, k)] == m.record(i, j, k),
{
    let p = emission_index(m.cols as int, m.pool.len() as int, i, j, k);
    lemma_emission_index_in_bounds(m.rows as int, m.cols as int, m.pool.len() as int, i, j, k);
    let r = records[p];
    lemma_emission_index_injective(
        m.cols as int,
        m.pool.len() as int,
        i,
        j,
        k,
        r.i_pos as int,
        r.j_pos as int,
        r.img_idx as int,
    );
}

/// The mosaic that `calc_errors` scores: `n_height` rows of `n_width` cells, each
/// `sub_img_width` x `sub_img_height` pixels, over `target` with the candidates `pool`.
pub open spec fn grid_of(
    target: RasterView,
    pool: Seq<RasterView>,
    n_width: u32,
    n_height: u32,
    sub_img_width: u32,
    sub_img_height: u32,
) -> Mosaic {
    Mosaic {
        target,
        pool,
        rows: n_height as nat,
        cols: n_width as nat,
        cell_width: sub_img_width as nat,
        cell_height: sub_img_height as nat,
    }
}

/// Rescaling keeps errors inside `u64`.
pub proof fn lemma_scaled_error_bounds(err: int, peak: int)
    requires
        0 <= err,
        0 <= peak <= u64::MAX,
    ensures
        0 <= scaled_error(err, peak) <= u64::MAX,
{
    if err <= peak && peak != 0 {
        let top = u64::MAX as int;
        assert(0 <= err * top / peak <= top) by (nonlinear_arith)
            requires
                0 <= err <= peak,
                0 < peak,
                0 <= top,
        ;
    }
}

/// Rescaling is strictly order-preserving on errors up to the peak.
pub proof fn lemma_scaling_keeps_order(a: int, b: int, peak: int)
    requires
        0 <= a <= peak,
        0 <= b <= peak,
        peak <= u64::MAX,
    ensures
        a < b <==> scaled_error(a, peak) < scaled_error(b, peak),
        a == b <==> scaled_error(a, peak) == scaled_error(b, peak),
{
    if peak != 0 {
        let top = u64::MAX as int;
        if a < b {
            lemma_scaled_step(a, b, peak, top);
        } else if b < a {
            lemma_scaled_step(b, a, peak, top);
        }
    }
}

/// A larger numerator gives a strictly larger quotient where the factor is no smaller than
/// the divisor.
proof fn lemma_scaled_step(a: int, b: int, peak: int, top: int)
    requires
        0 <= a < b,
        0 < peak <= top,
    ensures
        a * top / peak < b * top / peak,
{
    assert(a * top + peak <= b * top) by (nonlinear_arith)
        requires
            0 <= a < b,
            0 < peak <= top,
    ;
    vstd::arithmetic::div_mod::lemma_div_plus_one(a * top, peak);
    vstd::arithmetic::div_mod::lemma_div_is_ordered(a * top + peak, b * top, peak);
}

/// Rescales `err` by `max_err`, the largest error there is, onto the whole range of `u64`.
pub fn scale_err(err: u64, max_err: u64) -> (scaled: u64)
    ensures
        scaled == scaled_error(err as int, max_err as int),
{
    if err > max_err {
        u64::MAX
    } else if max_err == 0 {
        0
    } else {
        proof {
            lemma_scaled_error_bounds(err as int, max_err as int);
        }
        ((err as u128 * u64::MAX as u128) / (max_err as u128)) as u64
    }
}

/// Scores every candidate of the pool against the cell at `(x_from, y_from)`, in parallel.
///
/// Maps `squared_error` over the pool with rayon's `par_iter`, `map` and `collect`. The
/// contract claims that the collected vector holds, at each candidate's position in the pool,
/// the value that `squared_error` returns for that candidate.
#[verifier::external_body]
fn score_candidates(target_img: &Image, imgs: &[Image], x_from: u32, y_from: u32) -> (errors: Vec<
    u64,
>)
    requires
        forall|k: int|
            0 <= k < imgs@.len() ==> fits_at(
                target_img@,
                (#[trigger] imgs@[k])@,
                x_from as int,
                y_from as int,
            ),
    ensures
        errors@.len() == imgs@.len(),
        forall|k: int|
            0 <= k < imgs@.len() ==> #[trigger] errors@[k] == cell_error(
                target_img@,
                imgs@[k]@,
                x_from as int,
                y_from as int,
            ),
{
    imgs.par_iter().map(|img| squared_error(target_img, img, x_from, y_from)).collect()
}

impl Mosaic {
    /// Largest raw error seen once the rows before `i` and the first `j` cells of row `i`
    /// have been scored.
    pub open spec fn worst_before(self, i: int, j: int) -> int {
        let rows = self.worst_in_rows(i as nat);
        let row = self.worst_in_row(i, j as nat);
        if row > rows {
            row
        } else {
            rows
        }
    }

    /// Every raw error among the first `n` candidates of a cell is at most their worst.
    pub proof fn lemma_worst_of_first(self, i: int, j: int, n: nat, k: int)
        requires
            0 <= k < n,
        ensures
            0 <= self.raw_error(i, j, k) <= self.worst_of_first(i, j, n),
        decreases n,
    {
        lemma_cell_error_bound(
            self.target,
            self.pool[k],
            j * self.cell_width,
            i * self.cell_height,
        );
        if k < n - 1 {
            self.lemma_worst_of_first(i, j, (n - 1) as nat, k);
        }
    }

    /// The worst error of a range of candidates lies between 0 and `MAX_PIXEL_ERROR`.
    pub proof fn lemma_worst_of_first_bounds(self, i: int, j: int, n: nat)
        ensures
            0 <= self.worst_of_first(i, j, n) <= MAX_PIXEL_ERROR,
        decreases n,
    {
        if n > 0 {
            self.lemma_worst_of_first_bounds(i, j, (n - 1) as nat);
            lemma_cell_error_bound(
                self.target,
                self.pool[n - 1],
                j * self.cell_width,
                i * self.cell_height,
            );
        }
    }

    /// The worst error of each of the first `n` cells of a row is at most their worst.
    pub proof fn lemma_worst_in_row(self, i: int, n: nat, j: int)
        requires
            0 <= j < n,
        ensures
            self.worst_in_cell(i, j) <= self.worst_in_row(i, n),
        decreases n,
    {
        if j < n - 1 {
            self.lemma_worst_in_row(i, (n - 1) as nat, j);
        }
    }

    /// The worst error of a range of cells lies between 0 and `MAX_PIXEL_ERROR`.
    pub proof fn lemma_worst_in_row_bounds(self, i: int, n: nat)
        ensures
            0 <= self.worst_in_row(i, n) <= MAX_PIXEL_ERROR,
        decreases n,
    {
        if n > 0 {
            self.lemma_worst_in_row_bounds(i, (n - 1) as nat);
            self.lemma_worst_of_first_bounds(i, n - 1, self.pool.len());
        }
    }

    /// The worst error of each of the first `n` rows is at most their worst.
    pub proof fn lemma_worst_in_rows(self, n: nat, i: int)
        requires
            0 <= i < n,
        ensures
            self.worst_in_row(i, self.cols) <= self.worst_in_rows(n),
        decreases n,
    {
        if i < n - 1 {
            self.lemma_worst_in_rows((n - 1) as nat, i);
        }
    }

    /// The worst error of a range of rows lies between 0 and `MAX_PIXEL_ERROR`.
    pub proof fn lemma_worst_in_rows_bounds(self, n: nat)
        ensures
            0 <= self.worst_in_rows(n) <= MAX_PIXEL_ERROR,
        decreases n,
    {
        if n > 0 {
            self.lemma_worst_in_rows_bounds((n - 1) as nat);
            self.lemma_worst_in_row_bounds(n - 1, self.cols);
        }
    }

    /// No raw error of the matrix exceeds the peak error.
    pub proof fn lemma_peak_bounds_every_error(self, i: int, j: int, k: int)
        requires
            self.has_cell(i, j),
            self.has_candidate(k),
        ensures
            0 <= self.raw_error(i, j, k) <= self.worst_in_cell(i, j) <= self.peak_error()
                <= MAX_PIXEL_ERROR,
    {
        self.lemma_worst_of_first(i, j, self.pool.len(), k);
        self.lemma_worst_in_row(i, self.cols, j);
        self.lemma_worst_in_rows(self.rows, i);
        self.lemma_worst_in_rows_bounds(self.rows);
    }

    /// Rescaling by the peak error keeps the order of any two raw errors of the matrix.
    pub proof fn lemma_rescaling_keeps_order(
        self,
        i1: int,
        j1: int,
        k1: int,
        i2: int,
        j2: int,
        k2: int,
    )
        requires
            self.has_cell(i1, j1),
            self.has_candidate(k1),
            self.has_cell(i2, j2),
            self.has_candidate(k2),
        ensures
            self.raw_error(i1, j1, k1) < self.raw_error(i2, j2, k2) <==> self.record(
                i1,
                j1,
                k1,
            ).err < self.record(i2, j2, k2).err,
            self.raw_error(i1, j1, k1) == self.raw_error(i2, j2, k2) <==> self.record(
                i1,
                j1,
                k1,
            ).err == self.record(i2, j2, k2).err,
    {
        self.lemma_peak_bounds_every_error(i1, j1, k1);
        self.lemma_peak_bounds_every_error(i2, j2, k2);
        let peak = self.peak_error();
        lemma_scaled_error_bounds(self.raw_error(i1, j1, k1), peak);
        lemma_scaled_error_bounds(self.raw_error(i2, j2, k2), peak);
        lemma_scaling_keeps_order(self.raw_error(i1, j1, k1), self.raw_error(i2, j2, k2), peak);
    }
}

/// The first `count` records of a matrix before rescaling: each stands at its emission index
/// and carries the raw error of its pair and the raw worst error of its cell.
spec fn is_raw_prefix(m: Mosaic, raw: Seq<ErrInfo>, count: int) -> bool {
    &&& raw.len() == count
    &&& forall|p: int|
        0 <= p < raw.len() ==> {
            let r = #[trigger] raw[p];
            &&& m.has_cell(r.i_pos as int, r.j_pos as int)
            &&& m.has_candidate(r.img_idx as int)
            &&& emission_index(
                m.cols as int,
                m.pool.len() as int,
                r.i_pos as int,
                r.j_pos as int,
                r.img_idx as int,
            ) == p
            &&& r.err == m.raw_error(r.i_pos as int, r.j_pos as int, r.img_idx as int)
            &&& r.pos_err_min == m.worst_in_cell(r.i_pos as int, r.j_pos as int)
        }
}

/// Cell `index` of `count` cells of length `size` each starts and ends inside their span.
pub proof fn lemma_cell_span(count: int, size: int, index: int)
    requires
        0 <= index < count,
        0 <= size,
    ensures
        0 <= index * size,
        index * size + size <= count * size,
{
    assert(0 <= index * size && index * size + size <= count * size) by (nonlinear_arith)
        requires
            0 <= index < count,
            0 <= size,
    ;
}

/// Builds the error matrix of a mosaic: scores every candidate against every cell, cell by
/// cell in row-major order, and rescales every error by the largest one.
///
/// Announces each cell before it is scored.
#[verifier::loop_isolation(false)]
pub fn calc_errors(
    target_img: &Image,
    imgs: &[Image],
    n_width: u32,
    n_height: u32,
    sub_img_width: u32,
    sub_img_height: u32,
    progress: &mut Progress,
) -> (result: Vec<ErrInfo>)
    requires
        grid_of(
            target_img@,
            views(imgs@),
            n_width,
            n_height,
            sub_img_width,
            sub_img_height,
        ).well_formed(),
        n_width * n_height <= usize::MAX,
    ensures
        grid_of(
            target_img@,
            views(imgs@),
            n_width,
            n_height,
            sub_img_width,
            sub_img_height,
        ).has_matrix(result@),
        final(progress).has_announced(
            *old(progress),
            reports_before_each(Phase::CalculatingErrors, (n_width * n_height) as nat),
        ),
{
    let ghost m = grid_of(
        target_img@,
        views(imgs@),
        n_width,
        n_height,
        sub_img_width,
        sub_img_height,
    );
    let ghost before = *progress;
    let ghost n = imgs@.len() as int;
    let ghost cols = n_width as int;
    let total: usize = n_width as usize * n_height as usize;
    let ghost reports = reports_before_each(Phase::CalculatingErrors, total as nat);
    proof {
        target_img.lemma_well_formed();
        before.lemma_announced_nothing(reports);
    }
    let mut raw: Vec<ErrInfo> = Vec::new();
    let mut peak: u64 = 0;
    let mut i: u32 = 0;
    while i < n_height
        invariant
            i <= n_height,
            is_raw_prefix(m, raw@, i * cols * n),
            peak == m.worst_before(i as int, 0),
            progress.has_announced(before, reports.take(i * cols)),
        decreases n_height - i,
    {
        let mut j: u32 = 0;
        while j < n_width
            invariant
                i < n_height,
                j <= n_width,
                is_raw_prefix(m, raw@, (i * cols + j) * n),
                peak == m.worst_before(i as int, j as int),
                progress.has_announced(before, reports.take(i * cols + j)),
            decreases n_width - j,
        {
            proof {
                lemma_cell_span(n_height as int, sub_img_height as int, i as int);
                lemma_cell_span(n_width as int, sub_img_width as int, j as int);
                lemma_offset_in_bounds(cols, n_height as int, j as int, i as int);
            }
            let y_from: u32 = i * sub_img_height;
            let x_from: u32 = j * sub_img_width;
            let ghost cell = i * cols + j;
            let done: usize = i as usize * n_width as usize + j as usize;
            let ghost mid = *progress;
            progress.notify(done, total, Phase::CalculatingErrors);
            proof {
                progress.lemma_announced_next(mid, before, reports, cell);
                assert forall|k: int| 0 <= k < imgs@.len() implies fits_at(
                    target_img@,
                    (#[trigger] imgs@[k])@,
                    x_from as int,
                    y_from as int,
                ) by {
                    assert(m.pool[k] == imgs@[k]@);
                }
            }
            let errors = score_candidates(target_img, imgs, x_from, y_from);
            let mut worst: u64 = 0;
            let mut k: usize = 0;
            while k < errors.len()
                invariant
                    k <= errors.len(),
                    worst == m.worst_of_first(i as int, j as int, k as nat),
                decreases errors.len() - k,
            {
                if errors[k] > worst {
                    worst = errors[k];
                }
                k = k + 1;
            }
            let mut k: usize = 0;
            while k < errors.len()
                invariant
                    k <= errors.len(),
                    is_raw_prefix(m, raw@, cell * n + k),
                decreases errors.len() - k,
            {
                raw.push(
                    ErrInfo { img_idx: k, i_pos: i, j_pos: j, pos_err_min: worst, err: errors[k] },
                );
                k = k + 1;
            }
            if worst > peak {
                peak = worst;
            }
            proof {
                assert(cell * n + n == (i * cols + (j + 1)) * n) by (nonlinear_arith)
                    requires
                        cell == i * cols + j,
                ;
            }
            j = j + 1;
        }
        proof {
            assert(i * cols + cols == (i + 1) * cols) by (nonlinear_arith);
        }
        i = i + 1;
    }
    proof {
        m.lemma_worst_in_rows_bounds(m.rows);
        assert(n_height * cols == n_width * n_height) by (nonlinear_arith)
            requires
                cols == n_width,
        ;
        progress.lemma_announced_all(before, reports);
    }
    let mut result: Vec<ErrInfo> = Vec::new();
    let mut p: usize = 0;
    while p < raw.len()
        invariant
            p <= raw.len(),
            result@.len() == p,
            forall|q: int|
                0 <= q < p ==> {
                    let r = #[trigger] result@[q];
                    &&& r.i_pos == raw@[q].i_pos
                    &&& r.j_pos == raw@[q].j_pos
                    &&& r.img_idx == raw@[q].img_idx
                    &&& r == m.record(r.i_pos as int, r.j_pos as int, r.img_idx as int)
                },
        decreases raw.len() - p,
    {
        let r = raw[p];
        result.push(
            ErrInfo {
                img_idx: r.img_idx,
                i_pos: r.i_pos,
                j_pos: r.j_pos,
                pos_err_min: scale_err(r.pos_err_min, peak),
                err: scale_err(r.err, peak),
            },
        );
        p = p + 1;
    }
    result
}

} // verus!
