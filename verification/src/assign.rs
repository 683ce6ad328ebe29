//! The greedy assignor: one candidate for every cell of the grid.
//!
//! Score records are visited in ascending order of error, records of equal error in the order
//! in which they were emitted. A record is committed, giving its candidate to its cell, unless
//! its cell already has a candidate or, where candidates may be used only once, its candidate
//! already has a cell.

use crate::matrix::{
    emission_index, lemma_emission_index_in_bounds, lemma_emission_index_injective, ErrInfo,
};
use crate::progress::{reports_after_each, Phase, Progress};
use crate::raster::{lemma_offset_in_bounds, lemma_offsets_distinct};
use rayon::slice::ParallelSliceMut;
use std::collections::HashSet;
use vstd::arithmetic::div_mod::lemma_fundamental_div_mod;
use vstd::prelude::*;
use vstd::set_lib::{lemma_int_range, lemma_len_subset, set_int_range};

verus! {

/// `records` holds one record for every pair of a cell of the `rows` x `cols` grid and one of
/// `n` candidates, each at its emission index.
pub open spec fn is_complete(records: Seq<ErrInfo>, rows: nat, cols: nat, n: nat) -> bool {
    &&& records.len() == rows * cols * n
    &&& forall|p: int|
        0 <= p < records.len() ==> {
            let r = #[trigger] records[p];
            &&& r.i_pos < rows
            &&& r.j_pos < cols
            &&& r.img_idx < n
            &&& emission_index(
                cols as int,
                n as int,
                r.i_pos as int,
                r.j_pos as int,
                r.img_idx as int,
            ) == p
        }
}

/// The record at `p` is visited before the record at `q`: it has the smaller error, or the
/// same error and was emitted earlier.
pub open spec fn comes_before(records: Seq<ErrInfo>, p: int, q: int) -> bool {
    records[p].err < records[q].err || (records[p].err == records[q].err && p < q)
}

/// `grid` names one of `n` candidates for every cell of the `rows` x `cols` grid.
pub open spec fn is_total(grid: Seq<Seq<usize>>, rows: nat, cols: nat, n: nat) -> bool {
    &&& grid.len() == rows
    &&& forall|i: int| 0 <= i < rows ==> (#[trigger] grid[i]).len() == cols
    &&& forall|i: int, j: int| 0 <= i < rows && 0 <= j < cols ==> (#[trigger] grid[i][j]) < n
}

/// No candidate stands in two cells of `grid`.
pub open spec fn is_injective(grid: Seq<Seq<usize>>, rows: nat, cols: nat) -> bool {
    forall|i1: int, j1: int, i2: int, j2: int|
        0 <= i1 < rows && 0 <= j1 < cols && 0 <= i2 < rows && 0 <= j2 < cols && (i1 != i2 || j1
            != j2) ==> (#[trigger] grid[i1][j1]) != (#[trigger] grid[i2][j2])
}

/// The record at `p` is accounted for by `grid`: it is the choice for its cell, or it lost
/// to a record that was visited before it, namely the choice for its cell or, where
/// candidates are used only once, a choice of its candidate for another cell.
pub open spec fn is_settled(
    records: Seq<ErrInfo>,
    cols: nat,
    n: nat,
    unique: bool,
    grid: Seq<Seq<usize>>,
    p: int,
) -> bool {
    let r = records[p];
    let chosen = grid[r.i_pos as int][r.j_pos as int];
    ||| r.img_idx == chosen
    ||| comes_before(
        records,
        emission_index(cols as int, n as int, r.i_pos as int, r.j_pos as int, chosen as int),
        p,
    )
    ||| (unique && exists|i: int, j: int|
        0 <= i < grid.len() && 0 <= j < cols && (#[trigger] grid[i][j]) == r.img_idx
            && comes_before(
            records,
            emission_index(cols as int, n as int, i, j, r.img_idx as int),
            p,
        ))
}

/// `grid` is the assignment that the greedy scan of `records` produces: it names a candidate
/// for every cell, names none twice where `unique` holds, and accounts for every record.
pub open spec fn is_greedy_assignment(
    records: Seq<ErrInfo>,
    rows: nat,
    cols: nat,
    n: nat,
    unique: bool,
    grid: Seq<Seq<usize>>,
) -> bool {
    &&& is_total(grid, rows, cols, n)
    &&& unique ==> is_injective(grid, rows, cols)
    &&& forall|p: int|
        0 <= p < records.len() ==> #[trigger] is_settled(records, cols, n, unique, grid, p)
}

/// The record of a pair stands at the pair's emission index.
pub proof fn lemma_record_at(
    records: Seq<ErrInfo>,
    rows: nat,
    cols: nat,
    n: nat,
    i: int,
    j: int,
    k: int,
)
    requires
        is_complete(records, rows, cols, n),
        0 <= i < rows,
        0 <= j < cols,
        0 <= k < n,
    ensures
        0 <= emission_index(cols as int, n as int, i, j, k) < records.len(),
        records[emission_index(cols as int, n as int, i, j, k)].i_pos == i,
        records[emission_index(cols as int, n as int, i, j, k)].j_pos == j,
        records[emission_index(cols as int, n as int, i, j, k)].img_idx == k,
{
    let p = emission_index(cols as int, n as int, i, j, k);
    lemma_emission_index_in_bounds(rows as int, cols as int, n as int, i, j, k);
    let r = records[p];
    lemma_emission_index_injective(
        cols as int,
        n as int,
        i,
        j,
        k,
        r.i_pos as int,
        r.j_pos as int,
        r.img_idx as int,
    );
}

/// A record that one greedy assignment chooses is chosen by every greedy assignment.
proof fn lemma_chosen_alike(
    records: Seq<ErrInfo>,
    rows: nat,
    cols: nat,
    n: nat,
    unique: bool,
    g1: Seq<Seq<usize>>,
    g2: Seq<Seq<usize>>,
    p: int,
)
    requires
        is_complete(records, rows, cols, n),
        is_greedy_assignment(records, rows, cols, n, unique, g1),
        is_greedy_assignment(records, rows, cols, n, unique, g2),
        0 <= p < records.len(),
        g1[records[p].i_pos as int][records[p].j_pos as int] == records[p].img_idx,
    ensures
        g2[records[p].i_pos as int][records[p].j_pos as int] == records[p].img_idx,
    decreases records[p].err, p,
{
    let r = records[p];
    let i = r.i_pos as int;
    let j = r.j_pos as int;
    let c2 = g2[i][j];
    if c2 != r.img_idx {
        assert(is_settled(records, cols, n, unique, g2, p));
        let q = emission_index(cols as int, n as int, i, j, c2 as int);
        if comes_before(records, q, p) {
            // the choice of g2 for this cell was visited earlier, so g1 makes it too: g1 would
            // name two candidates for the cell
            lemma_record_at(records, rows, cols, n, i, j, c2 as int);
            lemma_chosen_alike(records, rows, cols, n, unique, g2, g1, q);
        } else {
            let (i2, j2) = choose|i2: int, j2: int|
                0 <= i2 < g2.len() && 0 <= j2 < cols && (#[trigger] g2[i2][j2]) == r.img_idx
                    && comes_before(
                    records,
                    emission_index(cols as int, n as int, i2, j2, r.img_idx as int),
                    p,
                );
            // g2 gave the candidate to another cell earlier, so g1 does too: g1 would name the
            // candidate for two cells
            let q2 = emission_index(cols as int, n as int, i2, j2, r.img_idx as int);
            lemma_record_at(records, rows, cols, n, i2, j2, r.img_idx as int);
            lemma_chosen_alike(records, rows, cols, n, unique, g2, g1, q2);
        }
    }
}

/// The greedy scan is deterministic: a record collection has at most one greedy assignment.
pub proof fn lemma_greedy_assignment_unique(
    records: Seq<ErrInfo>,
    rows: nat,
    cols: nat,
    n: nat,
    unique: bool,
    g1: Seq<Seq<usize>>,
    g2: Seq<Seq<usize>>,
)
    requires
        is_complete(records, rows, cols, n),
        is_greedy_assignment(records, rows, cols, n, unique, g1),
        is_greedy_assignment(records, rows, cols, n, unique, g2),
    ensures
        g1 == g2,
{
    assert forall|i: int| 0 <= i < rows implies g1[i] == g2[i] by {
        assert forall|j: int| 0 <= j < cols implies g1[i][j] == g2[i][j] by {
            let k = g1[i][j];
            lemma_record_at(records, rows, cols, n, i, j, k as int);
            lemma_chosen_alike(
                records,
                rows,
                cols,
                n,
                unique,
                g1,
                g2,
                emission_index(cols as int, n as int, i, j, k as int),
            );
        }
    }
}

/// Of two candidates that tie for a cell, the later one of the pool is chosen for it only
/// where the earlier one was given to another cell.
pub proof fn lemma_tie_goes_to_earlier(
    records: Seq<ErrInfo>,
    rows: nat,
    cols: nat,
    n: nat,
    unique: bool,
    grid: Seq<Seq<usize>>,
    i: int,
    j: int,
    earlier: int,
    later: int,
)
    requires
        is_complete(records, rows, cols, n),
        is_greedy_assignment(records, rows, cols, n, unique, grid),
        0 <= i < rows,
        0 <= j < cols,
        0 <= earlier < later < n,
        records[emission_index(cols as int, n as int, i, j, earlier)].err == records[emission_index(
            cols as int,
            n as int,
            i,
            j,
            later,
        )].err,
        grid[i][j] == later,
    ensures
        unique,
        exists|i2: int, j2: int|
            0 <= i2 < rows && 0 <= j2 < cols && (i2 != i || j2 != j) && (#[trigger] grid[i2][j2])
                == earlier,
{
    let p = emission_index(cols as int, n as int, i, j, earlier);
    lemma_record_at(records, rows, cols, n, i, j, earlier);
    assert(is_settled(records, cols, n, unique, grid, p));
    let (i2, j2) = choose|i2: int, j2: int|
        0 <= i2 < grid.len() && 0 <= j2 < cols && (#[trigger] grid[i2][j2]) == records[p].img_idx
            && comes_before(
            records,
            emission_index(cols as int, n as int, i2, j2, records[p].img_idx as int),
            p,
        );
}

/// Where candidates may be reused, every cell gets the candidate of least error for it, the
/// first such candidate of the pool where several tie.
pub proof fn lemma_reuse_picks_best(
    records: Seq<ErrInfo>,
    rows: nat,
    cols: nat,
    n: nat,
    grid: Seq<Seq<usize>>,
    i: int,
    j: int,
    k: int,
)
    requires
        is_complete(records, rows, cols, n),
        is_greedy_assignment(records, rows, cols, n, false, grid),
        0 <= i < rows,
        0 <= j < cols,
        0 <= k < n,
        k != grid[i][j],
    ensures
        ({
            let best = records[emission_index(cols as int, n as int, i, j, grid[i][j] as int)];
            let other = records[emission_index(cols as int, n as int, i, j, k)];
            best.err < other.err || (best.err == other.err && grid[i][j] < k)
        }),
{
    let p = emission_index(cols as int, n as int, i, j, k);
    lemma_record_at(records, rows, cols, n, i, j, k);
    assert(is_settled(records, cols, n, false, grid, p));
}

/// `sorted` holds the records of `unsorted` in ascending order of error, records of equal error
/// in the order in which they stand in `unsorted`. `at` gives, for each position of `sorted`, the
/// position of its record in `unsorted`; `back` is the inverse of `at`.
pub open spec fn is_stable_sort_by_error(
    sorted: Seq<ErrInfo>,
    unsorted: Seq<ErrInfo>,
    at: Seq<int>,
    back: Seq<int>,
) -> bool {
    &&& sorted.len() == unsorted.len()
    &&& at.len() == unsorted.len()
    &&& back.len() == unsorted.len()
    &&& forall|s: int|
        0 <= s < sorted.len() ==> 0 <= #[trigger] at[s] < unsorted.len() && back[at[s]] == s
            && sorted[s] == unsorted[at[s]]
    &&& forall|o: int|
        0 <= o < unsorted.len() ==> 0 <= #[trigger] back[o] < sorted.len() && at[back[o]] == o
    &&& forall|s1: int, s2: int|
        0 <= s1 < s2 < sorted.len() ==> comes_before(unsorted, #[trigger] at[s1], #[trigger] at[s2])
}

/// State of the greedy scan, for proofs.
struct Scan {
    rows: int,
    cols: int,
    n: int,
    unique: bool,
    /// The records in the order in which they are visited.
    sorted: Seq<ErrInfo>,
    /// Number of records visited.
    pos: int,
    /// The candidate of every cell that has one.
    cells: Seq<Seq<Option<usize>>>,
    /// The candidates that have a cell.
    used: Set<usize>,
    /// The cells that have a candidate, each as `row * cols + column`.
    filled: Set<int>,
    /// For every cell that has a candidate, where in `sorted` the record stands that gave it.
    committed_at: Map<(int, int), int>,
    /// For every candidate that has a cell, that cell.
    user: Map<usize, (int, int)>,
}

impl Scan {
    spec fn in_grid(self, i: int, j: int) -> bool {
        0 <= i < self.rows && 0 <= j < self.cols
    }

    /// The cell has a candidate, and `committed_at` leads to the visited record that gave it.
    spec fn commits(self, i: int, j: int) -> bool {
        &&& self.committed_at.dom().contains((i, j))
        &&& 0 <= self.committed_at[(i, j)] < self.pos
        &&& self.sorted[self.committed_at[(i, j)]].i_pos == i
        &&& self.sorted[self.committed_at[(i, j)]].j_pos == j
        &&& self.cells[i][j] == Some(self.sorted[self.committed_at[(i, j)]].img_idx)
    }

    /// The candidate has a cell, and `user` names it.
    spec fn uses(self, k: usize) -> bool {
        &&& self.user.dom().contains(k)
        &&& self.in_grid(self.user[k].0, self.user[k].1)
        &&& self.cells[self.user[k].0][self.user[k].1] == Some(k)
    }

    /// The visited record at `s` was committed, or was skipped for a record committed
    /// before it.
    spec fn settled(self, s: int) -> bool {
        let r = self.sorted[s];
        ||| (self.cells[r.i_pos as int][r.j_pos as int] is Some && self.committed_at[(
            r.i_pos as int,
            r.j_pos as int,
        )] <= s)
        ||| (self.unique && self.used.contains(r.img_idx) && self.committed_at[self.user[r.img_idx]]
            < s)
    }

    spec fn inv(self) -> bool {
        &&& 0 <= self.rows
        &&& 0 <= self.cols
        &&& 0 <= self.n
        &&& 0 <= self.pos <= self.sorted.len()
        &&& forall|s: int|
            0 <= s < self.sorted.len() ==> self.in_grid(
                (#[trigger] self.sorted[s]).i_pos as int,
                self.sorted[s].j_pos as int,
            ) && self.sorted[s].img_idx < self.n
        &&& self.cells.len() == self.rows
        &&& forall|i: int| 0 <= i < self.rows ==> (#[trigger] self.cells[i]).len() == self.cols
        &&& self.filled.finite()
        &&& forall|c: int| self.filled.contains(c) ==> 0 <= c < self.rows * self.cols
        &&& forall|i: int, j: int|
            self.in_grid(i, j) ==> (self.filled.contains(i * self.cols + j) <==> (
            #[trigger] self.cells[i][j]) is Some)
        &&& forall|i: int, j: int|
            self.in_grid(i, j) && (#[trigger] self.cells[i][j]) is Some ==> self.commits(i, j)
        &&& self.unique ==> {
            &&& self.used.finite()
            &&& self.used.len() == self.filled.len()
            &&& forall|k: usize| self.used.contains(k) ==> #[trigger] self.uses(k)
            &&& forall|i: int, j: int|
                self.in_grid(i, j) && (#[trigger] self.cells[i][j]) is Some ==> self.used.contains(
                    self.cells[i][j].unwrap(),
                ) && self.user[self.cells[i][j].unwrap()] == (i, j)
        }
        &&& forall|s: int| 0 <= s < self.pos ==> #[trigger] self.settled(s)
    }

    /// The state after the next record was skipped.
    spec fn skip(self) -> Scan {
        Scan { pos: self.pos + 1, ..self }
    }

    /// The state after the next record was committed.
    spec fn commit(self) -> Scan {
        let r = self.sorted[self.pos];
        let i = r.i_pos as int;
        let j = r.j_pos as int;
        Scan {
            pos: self.pos + 1,
            cells: self.cells.update(i, self.cells[i].update(j, Some(r.img_idx))),
            used: self.used.insert(r.img_idx),
            filled: self.filled.insert(i * self.cols + j),
            committed_at: self.committed_at.insert((i, j), self.pos),
            user: self.user.insert(r.img_idx, (i, j)),
            ..self
        }
    }

    /// The next record may be skipped where its cell has a candidate or, where candidates are
    /// used only once, its candidate has a cell.
    proof fn lemma_skip(self)
        requires
            self.inv(),
            self.pos < self.sorted.len(),
            ({
                let r = self.sorted[self.pos];
                self.cells[r.i_pos as int][r.j_pos as int] is Some || (self.unique
                    && self.used.contains(r.img_idx))
            }),
        ensures
            self.skip().inv(),
    {
        let next = self.skip();
        let r = self.sorted[self.pos];
        if self.unique {
            assert forall|k: usize| next.used.contains(k) implies #[trigger] next.uses(k) by {
                assert(self.uses(k));
            }
        }
        assert forall|s: int| 0 <= s < next.pos implies #[trigger] next.settled(s) by {
            if s < self.pos {
                assert(self.settled(s));
            } else if self.cells[r.i_pos as int][r.j_pos as int] is None {
                assert(self.uses(r.img_idx));
            }
        }
    }

    /// The next record may be committed where its cell has no candidate and, where candidates
    /// are used only once, its candidate has no cell.
    proof fn lemma_commit(self)
        requires
            self.inv(),
            self.pos < self.sorted.len(),
            ({
                let r = self.sorted[self.pos];
                self.cells[r.i_pos as int][r.j_pos as int] is None && (self.unique
                    ==> !self.used.contains(r.img_idx))
            }),
        ensures
            self.commit().inv(),
            self.commit().filled.len() == self.filled.len() + 1,
    {
        let next = self.commit();
        let r = self.sorted[self.pos];
        let i0 = r.i_pos as int;
        let j0 = r.j_pos as int;
        let k0 = r.img_idx;
        lemma_offset_in_bounds(self.cols, self.rows, j0, i0);
        assert forall|i: int, j: int| next.in_grid(i, j) implies (next.filled.contains(
            i * next.cols + j,
        ) <==> (#[trigger] next.cells[i][j]) is Some) by {
            if i != i0 || j != j0 {
                lemma_offsets_distinct(self.cols, j, i, j0, i0);
            }
        }
        if self.unique {
            assert forall|k: usize| next.used.contains(k) implies #[trigger] next.uses(k) by {
                if k != k0 {
                    assert(self.uses(k));
                }
            }
        }
        assert forall|s: int| 0 <= s < next.pos implies #[trigger] next.settled(s) by {
            if s < self.pos {
                assert(self.settled(s));
                let q = self.sorted[s];
                if self.cells[q.i_pos as int][q.j_pos as int] is None || self.committed_at[(
                    q.i_pos as int,
                    q.j_pos as int,
                )] > s {
                    assert(self.uses(q.img_idx));
                }
            }
        }
    }
}

/// A finite set that holds the first `n` numbers has at least `n` elements.
proof fn lemma_holds_first(used: Set<usize>, n: nat)
    requires
        used.finite(),
        n <= usize::MAX + 1,
        forall|k: usize| k < n ==> used.contains(k),
    ensures
        used.len() >= n,
    decreases n,
{
    if n > 0 {
        let last = (n - 1) as usize;
        let rest = used.remove(last);
        lemma_holds_first(rest, (n - 1) as nat);
    }
}

impl Scan {
    /// The grid that the scan has filled so far; cells without a candidate read 0.
    spec fn grid(self) -> Seq<Seq<usize>> {
        Seq::new(
            self.rows as nat,
            |i: int|
                Seq::new(
                    self.cols as nat,
                    |j: int|
                        match self.cells[i][j] {
                            Some(k) => k,
                            None => 0usize,
                        },
                ),
        )
    }

    /// Once the scan has visited every record, or has counted as many candidates as there
    /// are cells, every cell has a candidate, provided the pool is no smaller than the grid.
    proof fn lemma_total(self, unsorted: Seq<ErrInfo>, at: Seq<int>, back: Seq<int>)
        requires
            self.inv(),
            is_complete(unsorted, self.rows as nat, self.cols as nat, self.n as nat),
            is_stable_sort_by_error(self.sorted, unsorted, at, back),
            self.n >= self.rows * self.cols,
            self.n <= usize::MAX,
            self.pos == self.sorted.len() || self.filled.len() == self.rows * self.cols,
        ensures
            forall|i: int, j: int| self.in_grid(i, j) ==> (#[trigger] self.cells[i][j]) is Some,
    {
        let cells = self.rows * self.cols;
        assert forall|i: int, j: int| self.in_grid(i, j) implies (#[trigger] self.cells[i][j])
            is Some by {
            if self.cells[i][j] is None {
                let c = i * self.cols + j;
                lemma_offset_in_bounds(self.cols, self.rows, j, i);
                assert(self.cols * self.rows == cells) by (nonlinear_arith)
                    requires
                        cells == self.rows * self.cols,
                ;
                // the filled cells are among all cells but this one
                let others = set_int_range(0, cells).remove(c);
                lemma_int_range(0, cells);
                lemma_len_subset(self.filled, others);
                // every record of this cell was visited and skipped for its candidate
                assert(self.unique) by {
                    lemma_record_at(unsorted, self.rows as nat, self.cols as nat, self.n as nat, i, j, 0);
                    let s = back[emission_index(self.cols, self.n, i, j, 0)];
                    assert(self.settled(s));
                }
                assert forall|k: usize| k < self.n implies self.used.contains(k) by {
                    lemma_record_at(
                        unsorted,
                        self.rows as nat,
                        self.cols as nat,
                        self.n as nat,
                        i,
                        j,
                        k as int,
                    );
                    let o = emission_index(self.cols, self.n, i, j, k as int);
                    let s = back[o];
                    assert(self.settled(s));
                }
                lemma_holds_first(self.used, self.n as nat);
            }
        }
    }

    /// Once every cell has a candidate, the grid is the greedy assignment of the records.
    proof fn lemma_greedy(self, unsorted: Seq<ErrInfo>, at: Seq<int>, back: Seq<int>)
        requires
            self.inv(),
            is_complete(unsorted, self.rows as nat, self.cols as nat, self.n as nat),
            is_stable_sort_by_error(self.sorted, unsorted, at, back),
            forall|i: int, j: int| self.in_grid(i, j) ==> (#[trigger] self.cells[i][j]) is Some,
        ensures
            is_greedy_assignment(
                unsorted,
                self.rows as nat,
                self.cols as nat,
                self.n as nat,
                self.unique,
                self.grid(),
            ),
    {
        let rows = self.rows as nat;
        let cols = self.cols as nat;
        let n = self.n as nat;
        let grid = self.grid();
        assert forall|p: int| 0 <= p < unsorted.len() implies #[trigger] is_settled(
            unsorted,
            cols,
            n,
            self.unique,
            grid,
            p,
        ) by {
            let s = back[p];
            let r = unsorted[p];
            let i = r.i_pos as int;
            let j = r.j_pos as int;
            let sc = self.committed_at[(i, j)];
            assert(self.cells[i][j] == Some(grid[i][j]));
            if sc < s {
                assert(comes_before(unsorted, at[sc], at[s]));
            } else if sc > s {
                // visited, and not skipped for its cell: skipped for its candidate
                assert(self.settled(s));
                assert(self.uses(r.img_idx));
                let (i2, j2) = self.user[r.img_idx];
                let s2 = self.committed_at[(i2, j2)];
                assert(grid[i2][j2] == r.img_idx);
                assert(at[s2] == emission_index(cols as int, n as int, i2, j2, r.img_idx as int));
            }
        }
    }
}

impl Scan {
    /// Where every cell has a candidate, as many cells are counted as the grid has.
    proof fn lemma_all_filled(self)
        requires
            self.inv(),
            forall|i: int, j: int| self.in_grid(i, j) ==> (#[trigger] self.cells[i][j]) is Some,
        ensures
            self.filled.len() == self.rows * self.cols,
    {
        let cells = self.rows * self.cols;
        lemma_int_range(0, cells);
        let all = set_int_range(0, cells);
        assert forall|c: int| all.contains(c) implies self.filled.contains(c) by {
            let cols = self.cols;
            let rows = self.rows;
            assert(cols > 0) by (nonlinear_arith)
                requires
                    0 <= c < rows * cols,
                    0 <= rows,
                    0 <= cols,
            ;
            let i = c / cols;
            let j = c % cols;
            lemma_fundamental_div_mod(c, cols);
            assert(0 <= i < rows && i * cols + j == c) by (nonlinear_arith)
                requires
                    c == cols * i + j,
                    0 <= j < cols,
                    0 <= c < rows * cols,
            ;
            assert(self.cells[i][j] is Some);
        }
        lemma_len_subset(all, self.filled);
        lemma_len_subset(self.filled, all);
    }
}

/// The rows of a grid as sequences.
pub open spec fn grid_view(grid: Seq<Vec<usize>>) -> Seq<Seq<usize>> {
    grid.map_values(|row: Vec<usize>| row@)
}

/// A grid of `rows` x `cols` cells, none of which holds anything.
pub fn empty_vec_2d<T>(rows: usize, cols: usize) -> (grid: Vec<Vec<Option<T>>>)
    ensures
        grid@.len() == rows,
        forall|i: int| 0 <= i < rows ==> (#[trigger] grid@[i])@.len() == cols,
        forall|i: int, j: int| 0 <= i < rows && 0 <= j < cols ==> (#[trigger] grid@[i]@[j]) is None,
{
    let mut grid: Vec<Vec<Option<T>>> = Vec::new();
    let mut i: usize = 0;
    while i < rows
        invariant
            i <= rows,
            grid@.len() == i,
            forall|r: int| 0 <= r < i ==> (#[trigger] grid@[r])@.len() == cols,
            forall|r: int, c: int| 0 <= r < i && 0 <= c < cols ==> (#[trigger] grid@[r]@[c]) is None,
        decreases rows - i,
    {
        let mut row: Vec<Option<T>> = Vec::new();
        let mut j: usize = 0;
        while j < cols
            invariant
                j <= cols,
                row@.len() == j,
                forall|c: int| 0 <= c < j ==> (#[trigger] row@[c]) is None,
            decreases cols - j,
        {
            row.push(None);
            j = j + 1;
        }
        grid.push(row);
        i = i + 1;
    }
    grid
}

/// Sorts the records by ascending error and keeps records of equal error in their order.
///
/// Calls rayon's `par_sort_by_key` with the record's `err` as the key. The contract claims
/// what rayon documents of it: the slice is rearranged into ascending key order, and the sort
/// is stable, so that records with equal keys are not reordered.
#[verifier::external_body]
fn sort_by_error(errors: &mut Vec<ErrInfo>)
    ensures
        exists|at: Seq<int>, back: Seq<int>|
            is_stable_sort_by_error(final(errors)@, old(errors)@, at, back),
{
    errors.par_sort_by_key(|e| e.err);
}

/// Chooses a candidate for every cell by the greedy scan of the score records.
///
/// `errors` holds the records of `n_imgs` candidates for a grid of `n_height` rows and
/// `n_width` columns, in emission order. With `pop_used_img` a candidate is given to one cell
/// at most; without it a candidate may be given to several.
///
/// Announces every committed assignment.
#[verifier::loop_isolation(false)]
pub fn assign_images(
    errors: Vec<ErrInfo>,
    n_width: u32,
    n_height: u32,
    n_imgs: usize,
    pop_used_img: bool,
    progress: &mut Progress,
) -> (grid: Vec<Vec<usize>>)
    requires
        is_complete(errors@, n_height as nat, n_width as nat, n_imgs as nat),
        n_imgs >= n_width * n_height,
    ensures
        is_total(grid_view(grid@), n_height as nat, n_width as nat, n_imgs as nat),
        pop_used_img ==> is_injective(grid_view(grid@), n_height as nat, n_width as nat),
        is_greedy_assignment(
            errors@,
            n_height as nat,
            n_width as nat,
            n_imgs as nat,
            pop_used_img,
            grid_view(grid@),
        ),
        final(progress).has_announced(
            *old(progress),
            reports_after_each(Phase::SelectingImages, (n_width * n_height) as nat),
        ),
{
    let ghost unsorted = errors@;
    let ghost before = *progress;
    let ghost rows = n_height as int;
    let ghost cols = n_width as int;
    let mut errors = errors;
    sort_by_error(&mut errors);
    let ghost perm = choose|at: Seq<int>, back: Seq<int>|
        is_stable_sort_by_error(errors@, unsorted, at, back);
    let ghost at = perm.0;
    let ghost back = perm.1;
    let n_images: usize = n_width as usize * n_height as usize;
    let ghost reports = reports_after_each(Phase::SelectingImages, n_images as nat);
    let mut sub_imgs: Vec<Vec<Option<usize>>> = empty_vec_2d(n_height as usize, n_width as usize);
    let mut black_list: HashSet<usize> = HashSet::new();
    let mut filled_imgs: usize = 0;
    let mut pos: usize = 0;
    let ghost mut st = Scan {
        rows,
        cols,
        n: n_imgs as int,
        unique: pop_used_img,
        sorted: errors@,
        pos: 0,
        cells: Seq::new(rows as nat, |i: int| Seq::new(cols as nat, |j: int| None)),
        used: Set::empty(),
        filled: Set::empty(),
        committed_at: Map::empty(),
        user: Map::empty(),
    };
    proof {
        assert forall|s: int| 0 <= s < st.sorted.len() implies st.in_grid(
            (#[trigger] st.sorted[s]).i_pos as int,
            st.sorted[s].j_pos as int,
        ) && st.sorted[s].img_idx < st.n by {
            assert(errors@[s] == unsorted[at[s]]);
        }
        before.lemma_announced_nothing(reports);
    }
    while pos < errors.len() && filled_imgs < n_images
        invariant
            st.inv(),
            st.pos == pos,
            st.sorted == errors@,
            st.rows == rows,
            st.cols == cols,
            st.n == n_imgs,
            st.unique == pop_used_img,
            st.filled.len() == filled_imgs,
            filled_imgs <= n_images,
            st.used == black_list@,
            sub_imgs@.len() == rows,
            forall|i: int| 0 <= i < rows ==> (#[trigger] sub_imgs@[i])@.len() == cols,
            forall|i: int, j: int|
                0 <= i < rows && 0 <= j < cols ==> (#[trigger] sub_imgs@[i]@[j]) == st.cells[i][j],
            progress.has_announced(before, reports.take(filled_imgs as int)),
        decreases errors.len() - pos,
    {
        let e = errors[pos];
        let i = e.i_pos as usize;
        let j = e.j_pos as usize;
        let taken = sub_imgs[i][j].is_some();
        let spent = pop_used_img && black_list.contains(&e.img_idx);
        if taken || spent {
            proof {
                st.lemma_skip();
                st = st.skip();
            }
        } else {
            proof {
                st.lemma_commit();
                st = st.commit();
            }
            sub_imgs[i][j] = Some(e.img_idx);
            black_list.insert(e.img_idx);
            filled_imgs = filled_imgs + 1;
            let ghost mid = *progress;
            progress.notify(filled_imgs, n_images, Phase::SelectingImages);
            proof {
                progress.lemma_announced_next(mid, before, reports, filled_imgs - 1);
            }
        }
        pos = pos + 1;
    }
    proof {
        st.lemma_total(unsorted, at, back);
        st.lemma_all_filled();
        st.lemma_greedy(unsorted, at, back);
        progress.lemma_announced_all(before, reports);
    }
    let mut grid: Vec<Vec<usize>> = Vec::new();
    let mut i: usize = 0;
    while i < n_height as usize
        invariant
            i <= n_height,
            grid@.len() == i,
            forall|r: int| 0 <= r < i ==> (#[trigger] grid@[r])@ == st.grid()[r],
        decreases n_height - i,
    {
        let mut row: Vec<usize> = Vec::new();
        let mut j: usize = 0;
        while j < n_width as usize
            invariant
                i < n_height,
                j <= n_width,
                row@.len() == j,
                forall|c: int| 0 <= c < j ==> (#[trigger] row@[c]) == st.grid()[i as int][c],
            decreases n_width - j,
        {
            let k = sub_imgs[i][j].unwrap();
            row.push(k);
            j = j + 1;
        }
        grid.push(row);
        i = i + 1;
    }
    proof {
        assert(grid_view(grid@) =~= st.grid());
    }
    grid
}

} // verus!
