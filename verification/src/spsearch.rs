//! The pattern search: a greedy cover of the nonzeros of a matrix by affine
//! pieces taken from a priority list of patterns.

use vstd::prelude::*;
use crate::errors::ErrorKind;
use crate::grid::{
    Bitmap, Cell, bitmap_cells, bitmap_shape, bitmap_zero, bitmap_insert, bitmap_get, bitmap_set,
    bitmap_entries, bitmap_rows, bitmap_cols, bitmap_nnz, entry_is, within, row_major_sorted,
    lemma_entry_unique, row_major_before, stored_cells, coords_within, lemma_stored_cells,
};
use crate::patterns::{line_bytes, parse_patterns, patterns_of_lines};
use crate::utils::{Pattern, Piece};
use crate::utils::lemma_step_bound;

verus! {

/// The `k`-th cell of the line that starts at `(row, col)` and steps by
/// `(i, j)`.
pub open spec fn line_cell(row: int, col: int, i: int, j: int, k: int) -> (int, int) {
    (row + k * i, col + k * j)
}

/// The `k`-th cell of a piece.
pub open spec fn piece_cell(p: Piece, k: int) -> (int, int) {
    line_cell(p.0 as int, p.1 as int, p.2.1 as int, p.2.2 as int, k)
}

/// The cell `(row, col)` is one of the cells of the piece.
pub open spec fn on_piece(p: Piece, row: int, col: int) -> bool {
    exists|k: int| 0 <= k < p.2.0 && #[trigger] piece_cell(p, k) == (row, col)
}

/// The position is a nonzero that no piece has claimed yet.
pub open spec fn uncovered_at(cells: Seq<Cell>, pos: (int, int)) -> bool {
    entry_is(cells, pos.0, pos.1, false)
}

/// The piece fits: its origin is a free nonzero, and so is each further
/// cell of its line.
pub open spec fn fits(cells: Seq<Cell>, p: Piece) -> bool {
    &&& uncovered_at(cells, piece_cell(p, 0))
    &&& forall|k: int| 1 <= k < p.2.0 ==> uncovered_at(cells, #[trigger] piece_cell(p, k))
}

/// The cells after the first `upto` cells of a piece were claimed.
pub open spec fn mark_cells(cells: Seq<Cell>, p: Piece, upto: int) -> Seq<Cell> {
    Seq::new(
        cells.len(),
        |idx: int|
            (
                cells[idx].0,
                cells[idx].1,
                cells[idx].2 || exists|k: int|
                    0 <= k < upto && #[trigger] piece_cell(p, k) == (
                        cells[idx].0 as int,
                        cells[idx].1 as int,
                    ),
            ),
    )
}

/// The cells after a piece was committed: all of its cells are claimed.
pub open spec fn place(cells: Seq<Cell>, p: Piece) -> Seq<Cell> {
    mark_cells(cells, p, p.2.0 as int)
}

/// Two cell sequences store the same positions in the same order.
pub open spec fn same_positions(a: Seq<Cell>, b: Seq<Cell>) -> bool {
    &&& a.len() == b.len()
    &&& forall|k: int| 0 <= k < a.len() ==> (#[trigger] a[k]).0 == b[k].0 && a[k].1 == b[k].1
}

/// The state of a search: which nonzeros are claimed, and the pieces found.
pub struct SearchState {
    pub cells: Seq<Cell>,
    pub pieces: Seq<Piece>,
}

/// One trial: the pattern is committed at the `idx`-th nonzero if it fits
/// there.
pub open spec fn try_place(st: SearchState, idx: int, pat: Pattern) -> SearchState {
    let p = (st.cells[idx].0, st.cells[idx].1, pat);
    if fits(st.cells, p) {
        SearchState { cells: place(st.cells, p), pieces: st.pieces.push(p) }
    } else {
        st
    }
}

/// One pattern tried at the first `upto` nonzeros, in stored order.
pub open spec fn sweep_pattern(st: SearchState, pat: Pattern, upto: int) -> SearchState
    decreases upto,
{
    if upto <= 0 {
        st
    } else {
        try_place(sweep_pattern(st, pat, upto - 1), upto - 1, pat)
    }
}

/// The first `upto` patterns swept over all nonzeros, one pattern after
/// the other in priority order.
pub open spec fn pattern_first(st: SearchState, pats: Seq<Pattern>, upto: int) -> SearchState
    decreases upto,
{
    if upto <= 0 {
        st
    } else {
        sweep_pattern(pattern_first(st, pats, upto - 1), pats[upto - 1], st.cells.len() as int)
    }
}

/// The index of the first pattern from `from` on that fits at `(row, col)`.
pub open spec fn first_fit(cells: Seq<Cell>, row: usize, col: usize, pats: Seq<Pattern>, from: int) -> Option<
    int,
>
    decreases pats.len() - from,
{
    if from < 0 || from >= pats.len() {
        None
    } else if fits(cells, (row, col, pats[from])) {
        Some(from)
    } else {
        first_fit(cells, row, col, pats, from + 1)
    }
}

/// The first `upto` nonzeros visited in stored order, each taking the first
/// pattern in priority order that fits there.
pub open spec fn cell_first(st: SearchState, pats: Seq<Pattern>, upto: int) -> SearchState
    decreases upto,
{
    if upto <= 0 {
        st
    } else {
        let prev = cell_first(st, pats, upto - 1);
        match first_fit(prev.cells, prev.cells[upto - 1].0, prev.cells[upto - 1].1, pats, 0) {
            Some(p) => try_place(prev, upto - 1, pats[p]),
            None => prev,
        }
    }
}

/// The single points left among the first `upto` nonzeros, in stored order.
pub open spec fn residuals(cells: Seq<Cell>, upto: int) -> Seq<Piece>
    decreases upto,
{
    if upto <= 0 {
        Seq::empty()
    } else if cells[upto - 1].2 {
        residuals(cells, upto - 1)
    } else {
        residuals(cells, upto - 1).push((cells[upto - 1].0, cells[upto - 1].1, (1i32, 0i32, 0i32)))
    }
}

/// The state after all patterns were tried, in the chosen order of visits.
pub open spec fn matched(st: SearchState, pats: Seq<Pattern>, by_cell: bool) -> SearchState {
    if by_cell {
        cell_first(st, pats, st.cells.len() as int)
    } else {
        pattern_first(st, pats, pats.len() as int)
    }
}

/// The pieces of a finished search: those committed, in the order in which
/// they were found, and behind them every nonzero left over as a single
/// point, in stored order.
pub open spec fn search_pieces(st: SearchState, pats: Seq<Pattern>, by_cell: bool) -> Seq<Piece> {
    let end = matched(st, pats, by_cell);
    end.pieces + residuals(end.cells, end.cells.len() as int)
}

/// A set of search options.
#[derive(Clone, Copy, Debug, PartialEq, Eq, Structural)]
pub struct SpSearchPatternsFlags {
    pub bits: u64,
}

impl SpSearchPatternsFlags {
    /// No option.
    pub fn no_flags() -> (f: SpSearchPatternsFlags)
        ensures
            f.bits == 0,
            !f.by_pattern(),
            !f.by_cell(),
    {
        assert(0u64 & 1 != 1 && 0u64 & 2 != 2) by (bit_vector);
        SpSearchPatternsFlags { bits: 0 }
    }

    /// Each pattern in turn is tried at every free nonzero.
    pub fn pattern_first() -> (f: SpSearchPatternsFlags)
        ensures
            f.bits == 1,
            f.by_pattern(),
            !f.by_cell(),
            f.one_priority(),
    {
        assert(1u64 & 1 == 1 && 1u64 & 2 != 2) by (bit_vector);
        SpSearchPatternsFlags { bits: 1 }
    }

    /// Each nonzero in turn takes the first pattern that fits.
    pub fn cell_first() -> (f: SpSearchPatternsFlags)
        ensures
            f.bits == 2,
            f.by_cell(),
            !f.by_pattern(),
            f.one_priority(),
    {
        assert(2u64 & 1 != 1 && 2u64 & 2 == 2) by (bit_vector);
        SpSearchPatternsFlags { bits: 2 }
    }

    /// All options of `other` are set in `self`.
    pub open spec fn has(self, other: SpSearchPatternsFlags) -> bool {
        self.bits & other.bits == other.bits
    }

    /// All options of `other` are set in `self`.
    pub fn contains(&self, other: SpSearchPatternsFlags) -> (b: bool)
        ensures
            b == self.has(other),
    {
        self.bits & other.bits == other.bits
    }

    /// The options of both.
    pub fn union(self, other: SpSearchPatternsFlags) -> (both: SpSearchPatternsFlags)
        ensures
            both.bits == self.bits | other.bits,
            both.by_pattern() == (self.by_pattern() || other.by_pattern()),
            both.by_cell() == (self.by_cell() || other.by_cell()),
    {
        let a = self.bits;
        let b = other.bits;
        assert(((a | b) & 1 == 1) == (a & 1 == 1 || b & 1 == 1)) by (bit_vector);
        assert(((a | b) & 2 == 2) == (a & 2 == 2 || b & 2 == 2)) by (bit_vector);
        SpSearchPatternsFlags { bits: self.bits | other.bits }
    }

    /// The pattern-first order is chosen.
    pub open spec fn by_pattern(self) -> bool {
        self.bits & 1 == 1
    }

    /// The cell-first order is chosen.
    pub open spec fn by_cell(self) -> bool {
        self.bits & 2 == 2
    }

    /// Exactly one of the two orders of visits is chosen.
    pub open spec fn one_priority(self) -> bool {
        self.by_pattern() != self.by_cell()
    }
}

/// A position that is claimed is not free.
proof fn lemma_claimed_not_free(cells: Seq<Cell>, row: int, col: int)
    requires
        row_major_sorted(cells),
        entry_is(cells, row, col, true),
    ensures
        !entry_is(cells, row, col, false),
{
    if entry_is(cells, row, col, false) {
        let a = choose|k: int|
            0 <= k < cells.len() && #[trigger] cells[k].0 == row && cells[k].1 == col && cells[k].2
                == true;
        let b = choose|k: int|
            0 <= k < cells.len() && #[trigger] cells[k].0 == row && cells[k].1 == col && cells[k].2
                == false;
        lemma_entry_unique(cells, a, b);
    }
}

/// The state of one cell of a line: `Some(true)` where it is a free
/// nonzero, `Some(false)` where it is claimed, is no nonzero or lies outside
/// the matrix.
pub(crate) fn probe_cell(csmat: &Bitmap, x: usize, y: usize, i: i32, j: i32, k: i32) -> (free: bool)
    requires
        row_major_sorted(bitmap_cells(*csmat)),
        within(
            bitmap_cells(*csmat),
            bitmap_shape(*csmat).0 as int,
            bitmap_shape(*csmat).1 as int,
        ),
    ensures
        free == uncovered_at(bitmap_cells(*csmat), line_cell(x as int, y as int, i as int, j as int, k as int)),
{
    let ghost cells = bitmap_cells(*csmat);
    proof {
        lemma_step_bound(k as int, i as int);
        lemma_step_bound(k as int, j as int);
    }
    let px: i128 = x as i128 + (k as i128) * (i as i128);
    let py: i128 = y as i128 + (k as i128) * (j as i128);
    let nrows = bitmap_rows(csmat);
    let ncols = bitmap_cols(csmat);
    if px < 0 || px >= nrows as i128 || py < 0 || py >= ncols as i128 {
        proof {
            if entry_is(cells, px as int, py as int, false) {
                let a = choose|a: int|
                    0 <= a < cells.len() && #[trigger] cells[a].0 == px && cells[a].1 == py
                        && cells[a].2 == false;
                assert(cells[a].0 < nrows && cells[a].1 < ncols);
            }
        }
        return false;
    }
    match bitmap_get(csmat, px as usize, py as usize) {
        Some(claimed) => {
            proof {
                if claimed {
                    lemma_claimed_not_free(cells, px as int, py as int);
                }
            }
            !claimed
        },
        None => {
            proof {
                if entry_is(cells, px as int, py as int, false) {
                    let a = choose|a: int|
                        0 <= a < cells.len() && #[trigger] cells[a].0 == px && cells[a].1 == py
                            && cells[a].2 == false;
                    assert(cells[a].0 == px && cells[a].1 == py);
                }
            }
            false
        },
    }
}

/// Tests whether a pattern fits at a position: the position and every
/// further cell of the line must be a nonzero that no piece has claimed.
/// Returns the piece where it does.
pub(crate) fn check_pattern(csmat: &Bitmap, curr_pos: (usize, usize), pattern: &Pattern) -> (found:
    Option<Piece>)
    requires
        row_major_sorted(bitmap_cells(*csmat)),
        within(
            bitmap_cells(*csmat),
            bitmap_shape(*csmat).0 as int,
            bitmap_shape(*csmat).1 as int,
        ),
    ensures
        found == if fits(bitmap_cells(*csmat), (curr_pos.0, curr_pos.1, *pattern)) {
            Some((curr_pos.0, curr_pos.1, *pattern))
        } else {
            None::<Piece>
        },
{
    let (n, i, j) = *pattern;
    let (x, y) = curr_pos;
    let ghost p: Piece = (x, y, (n, i, j));
    let ghost cells = bitmap_cells(*csmat);
    assert(p == (curr_pos.0, curr_pos.1, *pattern));
    if !probe_cell(csmat, x, y, i, j, 0) {
        return None;
    }
    let mut k: i32 = 1;
    while k < n
        invariant
            1 <= k,
            k <= n || n < 1,
            p == (x, y, (n, i, j)),
            p == (curr_pos.0, curr_pos.1, *pattern),
            cells == bitmap_cells(*csmat),
            row_major_sorted(bitmap_cells(*csmat)),
            within(
                bitmap_cells(*csmat),
                bitmap_shape(*csmat).0 as int,
                bitmap_shape(*csmat).1 as int,
            ),
            forall|m: int| 0 <= m < k ==> uncovered_at(cells, #[trigger] piece_cell(p, m)),
        decreases n - k,
    {
        if !probe_cell(csmat, x, y, i, j, k) {
            proof {
                assert(!uncovered_at(cells, piece_cell(p, k as int)));
                assert(!fits(cells, p));
            }
            return None;
        }
        k += 1;
    }
    Some((x, y, (n, i, j)))
}

/// Claims every cell of a piece that fits.
pub(crate) fn mark_piece(m: &mut Bitmap, piece: &Piece)
    requires
        row_major_sorted(bitmap_cells(*old(m))),
        fits(bitmap_cells(*old(m)), *piece),
    ensures
        bitmap_cells(*final(m)) == place(bitmap_cells(*old(m)), *piece),
        bitmap_shape(*final(m)) == bitmap_shape(*old(m)),
{
    let (x, y, (n, i, j)) = *piece;
    let ghost p = *piece;
    let ghost start = bitmap_cells(*m);
    assert(bitmap_cells(*m) =~= mark_cells(start, p, 0));
    let mut k: i32 = 0;
    while k < n
        invariant
            0 <= k,
            k <= n || n < 0,
            p == (x, y, (n, i, j)),
            fits(start, p),
            row_major_sorted(start),
            start == bitmap_cells(*old(m)),
            p == *piece,
            n < 0 ==> k == 0,
            bitmap_cells(*m) == mark_cells(start, p, k as int),
            bitmap_shape(*m) == bitmap_shape(*old(m)),
        decreases n - k,
    {
        proof {
            lemma_step_bound(k as int, i as int);
            lemma_step_bound(k as int, j as int);
            assert(uncovered_at(start, piece_cell(p, k as int)));
        }
        let px: i128 = x as i128 + (k as i128) * (i as i128);
        let py: i128 = y as i128 + (k as i128) * (j as i128);
        let ghost before = bitmap_cells(*m);
        proof {
            let a = choose|a: int|
                0 <= a < start.len() && #[trigger] start[a].0 == px && start[a].1 == py
                    && start[a].2 == false;
            assert(before[a].0 == px && before[a].1 == py);
        }
        bitmap_set(m, px as usize, py as usize, true);
        proof {
            let after = bitmap_cells(*m);
            let goal = mark_cells(start, p, k as int + 1);
            assert forall|idx: int| 0 <= idx < after.len() implies after[idx] == goal[idx] by {
                let pos = (start[idx].0 as int, start[idx].1 as int);
                if before[idx].0 == px as usize && before[idx].1 == py as usize {
                    assert(piece_cell(p, k as int) == pos);
                } else {
                    if exists|q: int| 0 <= q < k + 1 && #[trigger] piece_cell(p, q) == pos {
                        let q = choose|q: int| 0 <= q < k + 1 && #[trigger] piece_cell(p, q) == pos;
                        assert(q != k);
                        assert(0 <= q < k && piece_cell(p, q) == pos);
                    }
                }
            }
            assert(after =~= goal);
        }
        k += 1;
    }
    proof {
        if n < 0 {
            assert(mark_cells(start, p, 0) =~= mark_cells(start, p, n as int));
        }
        assert(bitmap_cells(*m) == mark_cells(start, p, n as int));
    }
}

/// Claiming cells moves no entry: order and bounds of the positions stay.
pub proof fn lemma_same_positions(a: Seq<Cell>, b: Seq<Cell>, nrows: int, ncols: int)
    requires
        same_positions(a, b),
        row_major_sorted(b),
        within(b, nrows, ncols),
    ensures
        row_major_sorted(a),
        within(a, nrows, ncols),
{
    assert forall|x: int, y: int| 0 <= x < y < a.len() implies row_major_before(
        a[x].0 as int,
        a[x].1 as int,
        a[y].0 as int,
        a[y].1 as int,
    ) by {
        assert(row_major_before(b[x].0 as int, b[x].1 as int, b[y].0 as int, b[y].1 as int));
    }
    assert forall|k: int| 0 <= k < a.len() implies (#[trigger] a[k]).0 < nrows && a[k].1
        < ncols by {
        assert(b[k].0 < nrows);
    }
}

/// A sparse matrix under search: which of its nonzeros are claimed, the
/// patterns to look for, and the pieces found so far.
pub struct SpSearchMatrix {
    value_matrix: Bitmap,
    pub nonzeros: usize,
    pub numrows: usize,
    pub numcols: usize,
    patterns: Vec<Pattern>,
    found_pieces: Vec<Piece>,
}

impl SpSearchMatrix {
    /// The nonzeros in stored order, each with the mark that says whether a
    /// piece has claimed it.
    pub closed spec fn cells(&self) -> Seq<Cell> {
        bitmap_cells(self.value_matrix)
    }

    /// The shape of the underlying storage.
    pub closed spec fn shape(&self) -> (usize, usize) {
        bitmap_shape(self.value_matrix)
    }

    /// The patterns, in priority order.
    pub closed spec fn patterns(&self) -> Seq<Pattern> {
        self.patterns@
    }

    /// The pieces found so far.
    pub closed spec fn pieces(&self) -> Seq<Piece> {
        self.found_pieces@
    }

    /// The number of rows, of columns and of nonzeros that the matrix records.
    pub closed spec fn dims(&self) -> (usize, usize, usize) {
        (self.numrows, self.numcols, self.nonzeros)
    }

    /// The state that a search starts from.
    pub open spec fn state(&self) -> SearchState {
        SearchState { cells: self.cells(), pieces: self.pieces() }
    }

    /// The matrix is consistent: the nonzeros are stored once each, in
    /// row-major order and inside the matrix, the counts agree, and every
    /// pattern has at least two cells.
    pub open spec fn wf(&self) -> bool {
        &&& row_major_sorted(self.cells())
        &&& within(self.cells(), self.dims().0 as int, self.dims().1 as int)
        &&& self.shape() == (self.dims().0, self.dims().1)
        &&& self.dims().2 == self.cells().len()
        &&& forall|k: int| 0 <= k < self.patterns().len() ==> (#[trigger] self.patterns()[k]).0 >= 2
    }

    /// The number of rows of the matrix.
    pub fn numrows(&self) -> (n: usize)
        ensures
            n == self.dims().0,
    {
        self.numrows
    }

    /// The number of columns of the matrix.
    pub fn numcols(&self) -> (n: usize)
        ensures
            n == self.dims().1,
    {
        self.numcols
    }

    /// The number of nonzeros of the matrix.
    pub fn nonzeros(&self) -> (n: usize)
        ensures
            n == self.dims().2,
    {
        self.nonzeros
    }

    /// A matrix of the given shape whose nonzeros are the coordinates given,
    /// none of them claimed, with no pattern and no piece. A coordinate
    /// outside the shape is refused, and so is a row count that leaves no
    /// room for the row pointers.
    pub fn from_coordinates(numrows: usize, numcols: usize, coords: &Vec<(usize, usize)>) -> (made:
        Result<SpSearchMatrix, ErrorKind>)
        ensures
            match made {
                Ok(m) => {
                    &&& numrows < usize::MAX
                    &&& coords_within(coords@, numrows as int, numcols as int)
                    &&& m.wf()
                    &&& m.cells() == stored_cells(coords@)
                    &&& m.dims().0 == numrows
                    &&& m.dims().1 == numcols
                    &&& m.patterns() == Seq::<Pattern>::empty()
                    &&& m.pieces() == Seq::<Piece>::empty()
                },
                Err(e) => {
                    &&& e == ErrorKind::InputParse
                    &&& !(numrows < usize::MAX && coords_within(
                        coords@,
                        numrows as int,
                        numcols as int,
                    ))
                },
            },
    {
        if numrows == usize::MAX {
            return Err(ErrorKind::InputParse);
        }
        let mut grid = bitmap_zero(numrows, numcols);
        let mut k: usize = 0;
        while k < coords.len()
            invariant
                k <= coords.len(),
                numrows < usize::MAX,
                coords_within(coords@.take(k as int), numrows as int, numcols as int),
                bitmap_cells(grid) == stored_cells(coords@.take(k as int)),
                bitmap_shape(grid) == (numrows, numcols),
            decreases coords.len() - k,
        {
            let (row, col) = coords[k];
            if row >= numrows || col >= numcols {
                proof {
                    assert(!(coords@[k as int].0 < numrows && coords@[k as int].1 < numcols));
                }
                return Err(ErrorKind::InputParse);
            }
            bitmap_insert(&mut grid, row, col, false);
            proof {
                let next = coords@.take(k as int + 1);
                assert(next.drop_last() == coords@.take(k as int));
                assert(next.last() == coords@[k as int]);
                assert forall|m: int| 0 <= m < next.len() implies (#[trigger] next[m]).0 < numrows
                    && next[m].1 < numcols by {
                    if m < k {
                        assert(coords@.take(k as int)[m].0 < numrows);
                    }
                }
            }
            k += 1;
        }
        proof {
            assert(coords@.take(coords.len() as int) == coords@);
            lemma_stored_cells(coords@, numrows as int, numcols as int);
        }
        let nonzeros = bitmap_nnz(&grid);
        Ok(
            SpSearchMatrix {
                value_matrix: grid,
                nonzeros,
                numrows,
                numcols,
                patterns: Vec::new(),
                found_pieces: Vec::new(),
            },
        )
    }

    /// Takes the patterns to search for, in priority order, in place of
    /// those held before. A pattern of fewer than two cells is refused and
    /// leaves the matrix as it was.
    pub fn set_patterns(&mut self, patterns: Vec<Pattern>) -> (done: Result<(), ErrorKind>)
        requires
            old(self).wf(),
        ensures
            final(self).wf(),
            final(self).cells() == old(self).cells(),
            final(self).pieces() == old(self).pieces(),
            final(self).dims() == old(self).dims(),
            (forall|k: int| 0 <= k < patterns@.len() ==> (#[trigger] patterns@[k]).0 >= 2) ==> done
                == Ok::<(), ErrorKind>(()) && final(self).patterns() == patterns@,
            !(forall|k: int| 0 <= k < patterns@.len() ==> (#[trigger] patterns@[k]).0 >= 2) ==> done
                == Err::<(), ErrorKind>(ErrorKind::InputParse) && final(self).patterns() == old(
                self,
            ).patterns(),
    {
        let mut k: usize = 0;
        while k < patterns.len()
            invariant
                k <= patterns.len(),
                *self == *old(self),
                self.wf(),
                forall|m: int| 0 <= m < k ==> (#[trigger] patterns@[m]).0 >= 2,
            decreases patterns.len() - k,
        {
            if patterns[k].0 < 2 {
                return Err(ErrorKind::InputParse);
            }
            k += 1;
        }
        self.patterns = patterns;
        Ok(())
    }

    /// Takes the patterns that the lines of a pattern file write, one
    /// pattern `(N,I,J)` on each line, in priority order. A line that writes
    /// no pattern, an empty line among them, or a pattern of fewer than two
    /// cells is refused and leaves the matrix as it was.
    pub fn load_patterns(&mut self, lines: &Vec<String>) -> (done: Result<(), ErrorKind>)
        requires
            old(self).wf(),
        ensures
            final(self).wf(),
            final(self).cells() == old(self).cells(),
            final(self).pieces() == old(self).pieces(),
            final(self).dims() == old(self).dims(),
            match patterns_of_lines(line_bytes(lines@), lines@.len() as int) {
                Some(patterns) => done == Ok::<(), ErrorKind>(()) && final(self).patterns()
                    == patterns,
                None => done == Err::<(), ErrorKind>(ErrorKind::InputParse) && final(
                    self).patterns() == old(self).patterns(),
            },
    {
        match parse_patterns(lines) {
            Some(patterns) => {
                proof {
                    lemma_lines_long(line_bytes(lines@), lines@.len() as int);
                    let got = patterns_of_lines(line_bytes(lines@), lines@.len() as int).unwrap();
                    assert(got == patterns@);
                    assert forall|k: int| 0 <= k < patterns@.len() implies (
                    #[trigger] patterns@[k]).0 >= 2 by {
                        assert(got[k].0 >= 2);
                    }
                }
                self.patterns = patterns;
                Ok(())
            },
            None => Err(ErrorKind::InputParse),
        }
    }

    /// Tries one pattern at one nonzero and commits it where it fits.
    fn try_at(&mut self, row: usize, col: usize, pattern: &Pattern) -> (placed: bool)
        requires
            old(self).wf(),
        ensures
            placed == fits(old(self).cells(), (row, col, *pattern)),
            final(self).wf(),
            final(self).dims() == old(self).dims(),
            final(self).patterns() == old(self).patterns(),
            same_positions(final(self).cells(), old(self).cells()),
            fits(old(self).cells(), (row, col, *pattern)) ==> final(self).cells() == place(
                old(self).cells(),
                (row, col, *pattern),
            ) && final(self).pieces() == old(self).pieces().push((row, col, *pattern)),
            !fits(old(self).cells(), (row, col, *pattern)) ==> final(self).cells() == old(
                self,
            ).cells() && final(self).pieces() == old(self).pieces(),
    {
        match check_pattern(&self.value_matrix, (row, col), pattern) {
            None => false,
            Some(piece) => {
                mark_piece(&mut self.value_matrix, &piece);
                self.found_pieces.push(piece);
                proof {
                    assert(self.patterns() == old(self).patterns());
                    assert(self.dims() == old(self).dims());
                    assert(self.shape() == old(self).shape());
                    assert(self.cells() == place(old(self).cells(), piece));
                    assert(same_positions(self.cells(), old(self).cells()));
                    lemma_same_positions(
                        self.cells(),
                        old(self).cells(),
                        self.dims().0 as int,
                        self.dims().1 as int,
                    );
                }
                true
            },
        }
    }

    /// Covers the nonzeros by pieces. With the pattern-first order each
    /// pattern in turn, in priority order, is committed at every nonzero in
    /// stored order where it fits; with the cell-first order each nonzero
    /// in turn takes the first pattern in priority order that fits there.
    /// The nonzeros that no piece has claimed follow as single points
    /// `(row, col, (1, 0, 0))`, in stored order. Exactly one of the two
    /// orders must be chosen; otherwise nothing is done.
    pub fn search_patterns(&mut self, flags: SpSearchPatternsFlags) -> (done: Result<(), ErrorKind>)
        requires
            old(self).wf(),
        ensures
            final(self).wf(),
            final(self).dims() == old(self).dims(),
            final(self).patterns() == old(self).patterns(),
            flags.one_priority() ==> {
                &&& done == Ok::<(), ErrorKind>(())
                &&& final(self).cells() == matched(
                    old(self).state(),
                    old(self).patterns(),
                    flags.by_cell(),
                ).cells
                &&& final(self).pieces() == search_pieces(
                    old(self).state(),
                    old(self).patterns(),
                    flags.by_cell(),
                )
            },
            !flags.one_priority() ==> {
                &&& done == Err::<(), ErrorKind>(ErrorKind::Policy)
                &&& final(self).cells() == old(self).cells()
                &&& final(self).pieces() == old(self).pieces()
            },
    {
        let by_pattern = flags.contains(SpSearchPatternsFlags::pattern_first());
        let by_cell = flags.contains(SpSearchPatternsFlags::cell_first());
        if by_pattern == by_cell {
            return Err(ErrorKind::Policy);
        }
        let ghost start = self.state();
        let ghost pats = self.patterns();
        let positions = bitmap_entries(&self.value_matrix);
        let npos = positions.len();
        let npat = self.patterns.len();
        if by_cell {
            let mut idx: usize = 0;
            while idx < npos
                invariant
                    idx <= npos,
                    npos == start.cells.len(),
                    npat == pats.len(),
                    pats == self.patterns(),
                    self.wf(),
                    self.dims() == old(self).dims(),
                    same_positions(self.cells(), start.cells),
                    positions@ == start.cells,
                    self.state() == cell_first(start, pats, idx as int),
                decreases npos - idx,
            {
                let (row, col, _) = positions[idx];
                let ghost prev = self.state();
                assert(prev.cells[idx as int].0 == row && prev.cells[idx as int].1 == col);
                let mut q: usize = 0;
                let mut found = false;
                while q < npat && !found
                    invariant
                        q <= npat,
                        npat == pats.len(),
                        pats == self.patterns(),
                        self.wf(),
                        self.dims() == old(self).dims(),
                        same_positions(self.cells(), start.cells),
                        !found ==> self.state() == prev && first_fit(prev.cells, row, col, pats, 0)
                            == first_fit(prev.cells, row, col, pats, q as int),
                        found ==> first_fit(prev.cells, row, col, pats, 0) is Some
                            && self.state() == try_place(
                            prev,
                            idx as int,
                            pats[first_fit(prev.cells, row, col, pats, 0)->0],
                        ),
                        prev.cells[idx as int].0 == row && prev.cells[idx as int].1 == col,
                    decreases npat - q, if found { 0int } else { 1int },
                {
                    let pattern = self.patterns[q];
                    found = self.try_at(row, col, &pattern);
                    if !found {
                        q += 1;
                    }
                }
                proof {
                    if !found {
                        assert(first_fit(prev.cells, row, col, pats, npat as int) is None);
                    }
                }
                idx += 1;
            }
        } else {
            let mut p: usize = 0;
            while p < npat
                invariant
                    p <= npat,
                    npos == start.cells.len(),
                    npat == pats.len(),
                    pats == self.patterns(),
                    self.wf(),
                    self.dims() == old(self).dims(),
                    same_positions(self.cells(), start.cells),
                    positions@ == start.cells,
                    self.state() == pattern_first(start, pats, p as int),
                decreases npat - p,
            {
                let pattern = self.patterns[p];
                let ghost base = self.state();
                let mut idx: usize = 0;
                while idx < npos
                    invariant
                        idx <= npos,
                        npos == start.cells.len(),
                        pats == self.patterns(),
                        self.wf(),
                        self.dims() == old(self).dims(),
                        same_positions(self.cells(), start.cells),
                        positions@ == start.cells,
                        self.state() == sweep_pattern(base, pattern, idx as int),
                    decreases npos - idx,
                {
                    let (row, col, _) = positions[idx];
                    assert(self.cells()[idx as int].0 == row && self.cells()[idx as int].1 == col);
                    let _ = self.try_at(row, col, &pattern);
                    idx += 1;
                }
                p += 1;
            }
        }
        let ghost end = self.state();
        let marks = bitmap_entries(&self.value_matrix);
        let mut idx: usize = 0;
        while idx < npos
            invariant
                idx <= npos,
                npos == end.cells.len(),
                marks@ == end.cells,
                self.cells() == end.cells,
                self.wf(),
                self.dims() == old(self).dims(),
                pats == self.patterns(),
                self.pieces() == end.pieces + residuals(end.cells, idx as int),
            decreases npos - idx,
        {
            let (row, col, claimed) = marks[idx];
            if !claimed {
                self.found_pieces.push((row, col, (1, 0, 0)));
            }
            idx += 1;
        }
        Ok(())
    }

    /// The pieces found so far.
    pub fn get_piece_list(&self) -> (list: Vec<Piece>)
        ensures
            list@ == self.pieces(),
    {
        let mut list: Vec<Piece> = Vec::new();
        let mut k: usize = 0;
        while k < self.found_pieces.len()
            invariant
                k <= self.found_pieces.len(),
                list@ == self.found_pieces@.take(k as int),
            decreases self.found_pieces.len() - k,
        {
            list.push(self.found_pieces[k]);
            proof {
                assert(self.found_pieces@.take(k as int + 1) == self.found_pieces@.take(
                    k as int,
                ).push(self.found_pieces@[k as int]));
            }
            k += 1;
        }
        proof {
            assert(self.found_pieces@.take(self.found_pieces.len() as int) == self.found_pieces@);
        }
        list
    }
}

/// The patterns that lines write have at least two cells each.
pub proof fn lemma_lines_long(lines: Seq<Seq<u8>>, upto: int)
    requires
        patterns_of_lines(lines, upto) is Some,
    ensures
        forall|k: int|
            0 <= k < patterns_of_lines(lines, upto).unwrap().len() ==> (#[trigger] patterns_of_lines(
                lines,
                upto,
            ).unwrap()[k]).0 >= 2,
    decreases upto,
{
    if upto > 0 {
        lemma_lines_long(lines, upto - 1);
        let before = patterns_of_lines(lines, upto - 1).unwrap();
        let out = patterns_of_lines(lines, upto).unwrap();
        assert forall|k: int| 0 <= k < out.len() implies (#[trigger] out[k]).0 >= 2 by {
            if k < before.len() {
                assert(out[k] == before[k]);
            }
        }
    }
}

} // verus!
