//! What holds of every search: the pieces found partition the nonzeros.

use vstd::prelude::*;
use crate::grid::{Cell, lemma_entry_unique, row_major_before, row_major_sorted, within};
use crate::grid::all_free;
use crate::spsearch::{
    cell_first, first_fit, fits, mark_cells, matched, on_piece, pattern_first, piece_cell, place,
    residuals, same_positions, search_pieces, sweep_pattern, try_place, uncovered_at, SearchState,
};
use crate::utils::{Pattern, Piece};

verus! {

/// Some piece of the list holds the cell `(row, col)`.
pub open spec fn claimed_by(pieces: Seq<Piece>, row: int, col: int) -> bool {
    exists|q: int| 0 <= q < pieces.len() && on_piece(#[trigger] pieces[q], row, col)
}

/// Every cell of the piece is a nonzero that was free at the start.
pub open spec fn piece_free(cells: Seq<Cell>, p: Piece) -> bool {
    forall|k: int| 0 <= k < p.2.0 ==> uncovered_at(cells, #[trigger] piece_cell(p, k))
}

/// The two pieces share no cell.
pub open spec fn disjoint(p1: Piece, p2: Piece) -> bool {
    forall|k1: int, k2: int|
        0 <= k1 < p1.2.0 && 0 <= k2 < p2.2.0 ==> #[trigger] piece_cell(p1, k1) != #[trigger] piece_cell(
            p2,
            k2,
        )
}

/// No two pieces of the list share a cell.
pub open spec fn pairwise_disjoint(pieces: Seq<Piece>) -> bool {
    forall|q1: int, q2: int|
        0 <= q1 < q2 < pieces.len() ==> disjoint(#[trigger] pieces[q1], #[trigger] pieces[q2])
}

/// Every pattern has at least one cell.
pub open spec fn patterns_valid(pats: Seq<Pattern>) -> bool {
    forall|k: int| 0 <= k < pats.len() ==> (#[trigger] pats[k]).0 >= 1
}

/// What a search keeps true from a matrix `start` without claimed cells:
/// no entry moves, a cell is claimed exactly where a piece holds it, every
/// piece lies on nonzeros, and the pieces share no cell.
pub open spec fn cover_inv(start: Seq<Cell>, st: SearchState) -> bool {
    &&& same_positions(st.cells, start)
    &&& forall|idx: int|
        0 <= idx < st.cells.len() ==> (#[trigger] st.cells[idx]).2 == claimed_by(
            st.pieces,
            start[idx].0 as int,
            start[idx].1 as int,
        )
    &&& forall|q: int| 0 <= q < st.pieces.len() ==> piece_free(start, #[trigger] st.pieces[q])
    &&& pairwise_disjoint(st.pieces)
}

/// Committing a piece that fits keeps the cover invariant.
pub proof fn lemma_place_keeps(start: Seq<Cell>, st: SearchState, p: Piece)
    requires
        row_major_sorted(start),
        all_free(start),
        cover_inv(start, st),
        fits(st.cells, p),
        p.2.0 >= 1,
    ensures
        cover_inv(start, SearchState { cells: place(st.cells, p), pieces: st.pieces.push(p) }),
        piece_free(start, p),
{
    let next = SearchState { cells: place(st.cells, p), pieces: st.pieces.push(p) };
    // the cells of the new piece are free in the current state
    assert forall|k: int| 0 <= k < p.2.0 implies uncovered_at(
        st.cells,
        #[trigger] piece_cell(p, k),
    ) by {
        if k == 0 {
        }
    }
    // hence free at the start, and on no earlier piece
    assert forall|k: int| 0 <= k < p.2.0 implies uncovered_at(start, #[trigger] piece_cell(p, k))
        && !claimed_by(st.pieces, piece_cell(p, k).0, piece_cell(p, k).1) by {
        let pos = piece_cell(p, k);
        assert(uncovered_at(st.cells, pos));
        let a = choose|a: int|
            0 <= a < st.cells.len() && #[trigger] st.cells[a].0 == pos.0 && st.cells[a].1 == pos.1
                && st.cells[a].2 == false;
        assert(start[a].0 == pos.0 && start[a].1 == pos.1 && start[a].2 == false);
        assert(st.cells[a].2 == claimed_by(st.pieces, start[a].0 as int, start[a].1 as int));
    }
    assert(piece_free(start, p));
    assert forall|q: int| 0 <= q < next.pieces.len() implies piece_free(
        start,
        #[trigger] next.pieces[q],
    ) by {
        if q < st.pieces.len() {
            assert(next.pieces[q] == st.pieces[q]);
        }
    }
    assert forall|q1: int, q2: int| 0 <= q1 < q2 < next.pieces.len() implies disjoint(
        #[trigger] next.pieces[q1],
        #[trigger] next.pieces[q2],
    ) by {
        if q2 < st.pieces.len() {
            assert(disjoint(st.pieces[q1], st.pieces[q2]));
        } else {
            let other = st.pieces[q1];
            assert forall|k1: int, k2: int|
                0 <= k1 < other.2.0 && 0 <= k2 < p.2.0 implies #[trigger] piece_cell(other, k1)
                != #[trigger] piece_cell(p, k2) by {
                if piece_cell(other, k1) == piece_cell(p, k2) {
                    let pos = piece_cell(p, k2);
                    assert(on_piece(other, pos.0, pos.1));
                    assert(claimed_by(st.pieces, pos.0, pos.1));
                }
            }
        }
    }
    assert forall|a: int| 0 <= a < next.cells.len() implies (#[trigger] next.cells[a]).2
        == claimed_by(next.pieces, start[a].0 as int, start[a].1 as int) by {
        let r = start[a].0 as int;
        let c = start[a].1 as int;
        assert(st.cells[a].0 == r && st.cells[a].1 == c);
        assert(st.cells[a].2 == claimed_by(st.pieces, r, c));
        if claimed_by(st.pieces, r, c) {
            let q = choose|q: int| 0 <= q < st.pieces.len() && on_piece(#[trigger] st.pieces[q], r, c);
            assert(next.pieces[q] == st.pieces[q]);
        }
        if on_piece(p, r, c) {
            assert(next.pieces[st.pieces.len() as int] == p);
        }
        if claimed_by(next.pieces, r, c) {
            let q = choose|q: int|
                0 <= q < next.pieces.len() && on_piece(#[trigger] next.pieces[q], r, c);
            if q < st.pieces.len() {
                assert(next.pieces[q] == st.pieces[q]);
            }
        }
    }
}

/// Trying a pattern at a cell keeps the cover.
proof fn lemma_try_place(start: Seq<Cell>, st: SearchState, idx: int, pat: Pattern)
    requires
        row_major_sorted(start),
        all_free(start),
        cover_inv(start, st),
        0 <= idx < st.cells.len(),
        pat.0 >= 1,
    ensures
        cover_inv(start, try_place(st, idx, pat)),
{
    let p: Piece = (st.cells[idx].0, st.cells[idx].1, pat);
    if fits(st.cells, p) {
        lemma_place_keeps(start, st, p);
    }
}

/// A pass of one pattern over the first cells keeps the cover.
proof fn lemma_sweep(start: Seq<Cell>, st: SearchState, pat: Pattern, upto: int)
    requires
        row_major_sorted(start),
        all_free(start),
        cover_inv(start, st),
        upto <= st.cells.len(),
        pat.0 >= 1,
    ensures
        cover_inv(start, sweep_pattern(st, pat, upto)),
    decreases upto,
{
    if upto > 0 {
        lemma_sweep(start, st, pat, upto - 1);
        lemma_try_place(start, sweep_pattern(st, pat, upto - 1), upto - 1, pat);
    }
}

/// The passes of the first patterns keep the cover.
proof fn lemma_pattern_first(start: Seq<Cell>, st: SearchState, pats: Seq<Pattern>, upto: int)
    requires
        row_major_sorted(start),
        all_free(start),
        cover_inv(start, st),
        upto <= pats.len(),
        patterns_valid(pats),
    ensures
        cover_inv(start, pattern_first(st, pats, upto)),
    decreases upto,
{
    if upto > 0 {
        lemma_pattern_first(start, st, pats, upto - 1);
        lemma_sweep(
            start,
            pattern_first(st, pats, upto - 1),
            pats[upto - 1],
            st.cells.len() as int,
        );
    }
}

/// The first pattern that fits at a cell is one of the patterns from `from`
/// on, and it fits.
proof fn lemma_first_fit(cells: Seq<Cell>, row: usize, col: usize, pats: Seq<Pattern>, from: int)
    requires
        0 <= from,
    ensures
        first_fit(cells, row, col, pats, from) matches Some(p) ==> from <= p < pats.len() && fits(
            cells,
            (row, col, pats[p]),
        ),
    decreases pats.len() - from,
{
    if from < pats.len() && !fits(cells, (row, col, pats[from])) {
        lemma_first_fit(cells, row, col, pats, from + 1);
    }
}

/// Trying the patterns at each of the first cells keeps the cover.
proof fn lemma_cell_first(start: Seq<Cell>, st: SearchState, pats: Seq<Pattern>, upto: int)
    requires
        row_major_sorted(start),
        all_free(start),
        cover_inv(start, st),
        upto <= st.cells.len(),
        patterns_valid(pats),
    ensures
        cover_inv(start, cell_first(st, pats, upto)),
    decreases upto,
{
    if upto > 0 {
        lemma_cell_first(start, st, pats, upto - 1);
        let prev = cell_first(st, pats, upto - 1);
        lemma_first_fit(prev.cells, prev.cells[upto - 1].0, prev.cells[upto - 1].1, pats, 0);
        match first_fit(prev.cells, prev.cells[upto - 1].0, prev.cells[upto - 1].1, pats, 0) {
            Some(p) => {
                lemma_try_place(start, prev, upto - 1, pats[p]);
            },
            None => {},
        }
    }
}

/// The state in which the search of a fresh matrix ends keeps the cover
/// invariant.
pub proof fn lemma_matched(cells: Seq<Cell>, pats: Seq<Pattern>, by_cell: bool)
    requires
        row_major_sorted(cells),
        all_free(cells),
        patterns_valid(pats),
    ensures
        cover_inv(cells, matched(SearchState { cells, pieces: Seq::empty() }, pats, by_cell)),
{
    let st = SearchState { cells, pieces: Seq::<Piece>::empty() };
    assert(cover_inv(cells, st));
    if by_cell {
        lemma_cell_first(cells, st, pats, cells.len() as int);
    } else {
        lemma_pattern_first(cells, st, pats, pats.len() as int);
    }
}

/// The single points: one for each free cell, in stored order.
proof fn lemma_residuals(cells: Seq<Cell>, upto: int)
    requires
        0 <= upto <= cells.len(),
    ensures
        residuals(cells, upto).len() <= upto,
        forall|q: int|
            0 <= q < residuals(cells, upto).len() ==> exists|idx: int|
                0 <= idx < upto && !cells[idx].2 && #[trigger] residuals(cells, upto)[q] == (
                    (#[trigger] cells[idx]).0,
                    cells[idx].1,
                    (1i32, 0i32, 0i32),
                ),
        forall|idx: int|
            0 <= idx < upto && !(#[trigger] cells[idx]).2 ==> exists|q: int|
                0 <= q < residuals(cells, upto).len() && #[trigger] residuals(cells, upto)[q] == (
                    cells[idx].0,
                    cells[idx].1,
                    (1i32, 0i32, 0i32),
                ),
    decreases upto,
{
    if upto > 0 {
        lemma_residuals(cells, upto - 1);
        let prev = residuals(cells, upto - 1);
        let res = residuals(cells, upto);
        assert forall|q: int| 0 <= q < res.len() implies exists|idx: int|
            0 <= idx < upto && !cells[idx].2 && #[trigger] res[q] == (
                (#[trigger] cells[idx]).0,
                cells[idx].1,
                (1i32, 0i32, 0i32),
            ) by {
            if q < prev.len() {
                assert(res[q] == prev[q]);
                let idx = choose|idx: int|
                    0 <= idx < upto - 1 && !cells[idx].2 && #[trigger] prev[q] == (
                        (#[trigger] cells[idx]).0,
                        cells[idx].1,
                        (1i32, 0i32, 0i32),
                    );
                assert(0 <= idx < upto && !cells[idx].2 && res[q] == (
                    cells[idx].0,
                    cells[idx].1,
                    (1i32, 0i32, 0i32),
                ));
            } else {
                let idx = upto - 1;
                assert(0 <= idx < upto && !cells[idx].2 && res[q] == (
                    cells[idx].0,
                    cells[idx].1,
                    (1i32, 0i32, 0i32),
                ));
            }
        }
        assert forall|idx: int| 0 <= idx < upto && !(#[trigger] cells[idx]).2 implies exists|q: int|
            0 <= q < res.len() && #[trigger] res[q] == (
                cells[idx].0,
                cells[idx].1,
                (1i32, 0i32, 0i32),
            ) by {
            if idx < upto - 1 {
                let q = choose|q: int|
                    0 <= q < prev.len() && #[trigger] prev[q] == (
                        cells[idx].0,
                        cells[idx].1,
                        (1i32, 0i32, 0i32),
                    );
                assert(res[q] == prev[q]);
            } else {
                assert(res[res.len() - 1] == (cells[idx].0, cells[idx].1, (1i32, 0i32, 0i32)));
            }
        }
    }
}

/// The single points of sorted cells lie on different nonzeros.
proof fn lemma_residuals_apart(cells: Seq<Cell>, upto: int)
    requires
        0 <= upto <= cells.len(),
        row_major_sorted(cells),
    ensures
        forall|q1: int, q2: int|
            0 <= q1 < q2 < residuals(cells, upto).len() ==> row_major_before(
                (#[trigger] residuals(cells, upto)[q1]).0 as int,
                residuals(cells, upto)[q1].1 as int,
                (#[trigger] residuals(cells, upto)[q2]).0 as int,
                residuals(cells, upto)[q2].1 as int,
            ),
    decreases upto,
{
    if upto > 0 {
        lemma_residuals_apart(cells, upto - 1);
        lemma_residuals(cells, upto - 1);
        let prev = residuals(cells, upto - 1);
        let res = residuals(cells, upto);
        assert forall|q1: int, q2: int| 0 <= q1 < q2 < res.len() implies row_major_before(
            (#[trigger] res[q1]).0 as int,
            res[q1].1 as int,
            (#[trigger] res[q2]).0 as int,
            res[q2].1 as int,
        ) by {
            if q2 < prev.len() {
                assert(res[q1] == prev[q1] && res[q2] == prev[q2]);
            } else {
                assert(res[q1] == prev[q1]);
                let idx = choose|idx: int|
                    0 <= idx < upto - 1 && !cells[idx].2 && #[trigger] prev[q1] == (
                        (#[trigger] cells[idx]).0,
                        cells[idx].1,
                        (1i32, 0i32, 0i32),
                    );
                assert(row_major_before(
                    cells[idx].0 as int,
                    cells[idx].1 as int,
                    cells[upto - 1].0 as int,
                    cells[upto - 1].1 as int,
                ));
            }
        }
    }
}

/// The state that a search of `cells` starts from when nothing was found yet.
pub open spec fn fresh(cells: Seq<Cell>) -> SearchState {
    SearchState { cells, pieces: Seq::empty() }
}

/// Each single point stands on a nonzero that stayed free.
pub open spec fn points_from_free(cells: Seq<Cell>, marks: Seq<Cell>, res: Seq<Piece>) -> bool {
    forall|q: int|
        0 <= q < res.len() ==> exists|idx: int|
            0 <= idx < cells.len() && !marks[idx].2 && #[trigger] res[q] == (
                (#[trigger] cells[idx]).0,
                cells[idx].1,
                (1i32, 0i32, 0i32),
            )
}

/// Each nonzero that stayed free has its single point.
pub open spec fn free_have_points(cells: Seq<Cell>, marks: Seq<Cell>, res: Seq<Piece>) -> bool {
    forall|idx: int|
        0 <= idx < cells.len() && !marks[idx].2 ==> exists|q: int|
            0 <= q < res.len() && #[trigger] res[q] == (
                (#[trigger] cells[idx]).0,
                cells[idx].1,
                (1i32, 0i32, 0i32),
            )
}

/// The single points stand on different nonzeros.
pub open spec fn points_apart(res: Seq<Piece>) -> bool {
    forall|q1: int, q2: int|
        0 <= q1 < q2 < res.len() ==> row_major_before(
            (#[trigger] res[q1]).0 as int,
            res[q1].1 as int,
            (#[trigger] res[q2]).0 as int,
            res[q2].1 as int,
        )
}

/// Where a search of a fresh matrix ends.
pub proof fn lemma_end(cells: Seq<Cell>, pats: Seq<Pattern>, by_cell: bool)
    requires
        row_major_sorted(cells),
        all_free(cells),
        patterns_valid(pats),
    ensures
        ({
            let end = matched(fresh(cells), pats, by_cell);
            let res = residuals(end.cells, end.cells.len() as int);
            &&& cover_inv(cells, end)
            &&& points_from_free(cells, end.cells, res)
            &&& free_have_points(cells, end.cells, res)
            &&& points_apart(res)
            &&& search_pieces(fresh(cells), pats, by_cell) == end.pieces + res
        }),
{
    let end = matched(fresh(cells), pats, by_cell);
    let n = end.cells.len() as int;
    let res = residuals(end.cells, n);
    lemma_matched(cells, pats, by_cell);
    lemma_residuals(end.cells, n);
    assert forall|x: int, y: int| 0 <= x < y < end.cells.len() implies row_major_before(
        end.cells[x].0 as int,
        end.cells[x].1 as int,
        end.cells[y].0 as int,
        end.cells[y].1 as int,
    ) by {
        assert(row_major_before(
            cells[x].0 as int,
            cells[x].1 as int,
            cells[y].0 as int,
            cells[y].1 as int,
        ));
    }
    lemma_residuals_apart(end.cells, n);
    assert forall|q: int| 0 <= q < res.len() implies exists|idx: int|
        0 <= idx < cells.len() && !end.cells[idx].2 && #[trigger] res[q] == (
            (#[trigger] cells[idx]).0,
            cells[idx].1,
            (1i32, 0i32, 0i32),
        ) by {
        let idx = choose|idx: int|
            0 <= idx < n && !end.cells[idx].2 && #[trigger] res[q] == (
                (#[trigger] end.cells[idx]).0,
                end.cells[idx].1,
                (1i32, 0i32, 0i32),
            );
        assert(cells[idx].0 == end.cells[idx].0 && cells[idx].1 == end.cells[idx].1);
    }
    assert forall|idx: int| 0 <= idx < cells.len() && !end.cells[idx].2 implies exists|q: int|
        0 <= q < res.len() && #[trigger] res[q] == (
            (#[trigger] cells[idx]).0,
            cells[idx].1,
            (1i32, 0i32, 0i32),
        ) by {
        assert(cells[idx].0 == end.cells[idx].0 && cells[idx].1 == end.cells[idx].1);
        let q = choose|q: int|
            0 <= q < res.len() && #[trigger] res[q] == (
                end.cells[idx].0,
                end.cells[idx].1,
                (1i32, 0i32, 0i32),
            );
        assert(res[q] == (cells[idx].0, cells[idx].1, (1i32, 0i32, 0i32)));
    }
}

/// Every piece of the result, a single point too, lies on nonzeros.
proof fn lemma_out_free(cells: Seq<Cell>, end: SearchState, res: Seq<Piece>)
    requires
        cover_inv(cells, end),
        points_from_free(cells, end.cells, res),
        all_free(cells),
    ensures
        forall|q: int|
            0 <= q < (end.pieces + res).len() ==> piece_free(cells, #[trigger] (end.pieces + res)[q]),
{
    let out = end.pieces + res;
    assert forall|q: int| 0 <= q < out.len() implies piece_free(cells, #[trigger] out[q]) by {
        if q < end.pieces.len() {
            assert(out[q] == end.pieces[q]);
        } else {
            let r = q - end.pieces.len();
            assert(out[q] == res[r]);
            let idx = choose|idx: int|
                0 <= idx < cells.len() && !end.cells[idx].2 && #[trigger] res[r] == (
                    (#[trigger] cells[idx]).0,
                    cells[idx].1,
                    (1i32, 0i32, 0i32),
                );
            assert forall|k: int| 0 <= k < out[q].2.0 implies uncovered_at(
                cells,
                #[trigger] piece_cell(out[q], k),
            ) by {
                assert(k == 0);
                assert(cells[idx].0 == piece_cell(out[q], k).0 && cells[idx].1 == piece_cell(
                    out[q],
                    k,
                ).1 && cells[idx].2 == false);
            }
        }
    }
}

/// Every nonzero lies on a piece of the result.
proof fn lemma_out_covers(cells: Seq<Cell>, end: SearchState, res: Seq<Piece>)
    requires
        cover_inv(cells, end),
        free_have_points(cells, end.cells, res),
    ensures
        forall|idx: int|
            0 <= idx < cells.len() ==> claimed_by(
                end.pieces + res,
                (#[trigger] cells[idx]).0 as int,
                cells[idx].1 as int,
            ),
{
    let out = end.pieces + res;
    assert forall|idx: int| 0 <= idx < cells.len() implies claimed_by(
        out,
        (#[trigger] cells[idx]).0 as int,
        cells[idx].1 as int,
    ) by {
        let r = cells[idx].0 as int;
        let c = cells[idx].1 as int;
        if end.cells[idx].2 {
            assert(claimed_by(end.pieces, r, c));
            let q = choose|q: int| 0 <= q < end.pieces.len() && on_piece(#[trigger] end.pieces[q], r, c);
            assert(out[q] == end.pieces[q]);
        } else {
            let q = choose|q: int|
                0 <= q < res.len() && #[trigger] res[q] == (
                    cells[idx].0,
                    cells[idx].1,
                    (1i32, 0i32, 0i32),
                );
            assert(out[end.pieces.len() + q] == res[q]);
            assert(piece_cell(res[q], 0) == (r, c));
            assert(on_piece(out[end.pieces.len() + q], r, c));
        }
    }
}

/// No two pieces of the result share a cell.
proof fn lemma_out_disjoint(cells: Seq<Cell>, end: SearchState, res: Seq<Piece>)
    requires
        cover_inv(cells, end),
        points_from_free(cells, end.cells, res),
        points_apart(res),
    ensures
        pairwise_disjoint(end.pieces + res),
{
    let out = end.pieces + res;
    assert forall|q1: int, q2: int| 0 <= q1 < q2 < out.len() implies disjoint(
        #[trigger] out[q1],
        #[trigger] out[q2],
    ) by {
        if q2 < end.pieces.len() {
            assert(out[q1] == end.pieces[q1] && out[q2] == end.pieces[q2]);
        } else {
            let r2 = q2 - end.pieces.len();
            assert(out[q2] == res[r2]);
            let idx2 = choose|idx: int|
                0 <= idx < cells.len() && !end.cells[idx].2 && #[trigger] res[r2] == (
                    (#[trigger] cells[idx]).0,
                    cells[idx].1,
                    (1i32, 0i32, 0i32),
                );
            if q1 < end.pieces.len() {
                assert(out[q1] == end.pieces[q1]);
                assert forall|k1: int, k2: int|
                    0 <= k1 < out[q1].2.0 && 0 <= k2 < out[q2].2.0 implies #[trigger] piece_cell(
                    out[q1],
                    k1,
                ) != #[trigger] piece_cell(out[q2], k2) by {
                    if piece_cell(out[q1], k1) == piece_cell(out[q2], k2) {
                        assert(k2 == 0);
                        assert(on_piece(end.pieces[q1], cells[idx2].0 as int, cells[idx2].1 as int));
                        assert(claimed_by(end.pieces, cells[idx2].0 as int, cells[idx2].1 as int));
                        assert(end.cells[idx2].2);
                    }
                }
            } else {
                let r1 = q1 - end.pieces.len();
                assert(out[q1] == res[r1]);
                assert(row_major_before(
                    res[r1].0 as int,
                    res[r1].1 as int,
                    res[r2].0 as int,
                    res[r2].1 as int,
                ));
                let idx1 = choose|idx: int|
                    0 <= idx < cells.len() && !end.cells[idx].2 && #[trigger] res[r1] == (
                        (#[trigger] cells[idx]).0,
                        cells[idx].1,
                        (1i32, 0i32, 0i32),
                    );
                assert forall|k1: int, k2: int|
                    0 <= k1 < out[q1].2.0 && 0 <= k2 < out[q2].2.0 implies #[trigger] piece_cell(
                    out[q1],
                    k1,
                ) != #[trigger] piece_cell(out[q2], k2) by {
                    assert(k1 == 0 && k2 == 0);
                }
            }
        }
    }
}

/// The pieces of a search partition the nonzeros: every cell of every
/// piece is a nonzero of the matrix, every nonzero lies on a piece, and no
/// two pieces share a cell. This holds for both orders of visits and for
/// every list of patterns of at least one cell.
pub proof fn lemma_search_partitions(cells: Seq<Cell>, pats: Seq<Pattern>, by_cell: bool)
    requires
        row_major_sorted(cells),
        all_free(cells),
        patterns_valid(pats),
    ensures
        forall|q: int|
            0 <= q < search_pieces(fresh(cells), pats, by_cell).len() ==> piece_free(
                cells,
                #[trigger] search_pieces(fresh(cells), pats, by_cell)[q],
            ),
        forall|idx: int|
            0 <= idx < cells.len() ==> claimed_by(
                search_pieces(fresh(cells), pats, by_cell),
                (#[trigger] cells[idx]).0 as int,
                cells[idx].1 as int,
            ),
        pairwise_disjoint(search_pieces(fresh(cells), pats, by_cell)),
{
    let end = matched(fresh(cells), pats, by_cell);
    let res = residuals(end.cells, end.cells.len() as int);
    lemma_end(cells, pats, by_cell);
    lemma_out_free(cells, end, res);
    lemma_out_covers(cells, end, res);
    lemma_out_disjoint(cells, end, res);
}

/// Every cell of every piece of a search lies inside the matrix.
pub proof fn lemma_search_in_bounds(
    cells: Seq<Cell>,
    nrows: int,
    ncols: int,
    pats: Seq<Pattern>,
    by_cell: bool,
)
    requires
        row_major_sorted(cells),
        within(cells, nrows, ncols),
        all_free(cells),
        patterns_valid(pats),
    ensures
        forall|q: int, k: int|
            0 <= q < search_pieces(fresh(cells), pats, by_cell).len() && 0 <= k < search_pieces(
                fresh(cells),
                pats,
                by_cell,
            )[q].2.0 ==> {
                let pos = #[trigger] piece_cell(search_pieces(fresh(cells), pats, by_cell)[q], k);
                0 <= pos.0 < nrows && 0 <= pos.1 < ncols
            },
{
    let out = search_pieces(fresh(cells), pats, by_cell);
    lemma_search_partitions(cells, pats, by_cell);
    assert forall|q: int, k: int| 0 <= q < out.len() && 0 <= k < out[q].2.0 implies {
        let pos = #[trigger] piece_cell(out[q], k);
        0 <= pos.0 < nrows && 0 <= pos.1 < ncols
    } by {
        let pos = piece_cell(out[q], k);
        assert(piece_free(cells, out[q]));
        assert(uncovered_at(cells, pos));
        let a = choose|a: int|
            0 <= a < cells.len() && #[trigger] cells[a].0 == pos.0 && cells[a].1 == pos.1
                && cells[a].2 == false;
        assert(cells[a].0 < nrows && cells[a].1 < ncols);
    }
}

/// The number of cells that the pieces have, each with its length.
pub open spec fn total_cells(pieces: Seq<Piece>) -> int
    decreases pieces.len(),
{
    if pieces.len() == 0 {
        0
    } else {
        total_cells(pieces.drop_last()) + pieces.last().2.0
    }
}

/// The number of claimed cells among the first `upto`.
pub open spec fn count_claimed(cells: Seq<Cell>, upto: int) -> int
    decreases upto,
{
    if upto <= 0 {
        0
    } else {
        count_claimed(cells, upto - 1) + if cells[upto - 1].2 {
            1int
        } else {
            0int
        }
    }
}

/// No pattern stands still: each steps by a row or by a column.
pub open spec fn patterns_move(pats: Seq<Pattern>) -> bool {
    forall|k: int| 0 <= k < pats.len() ==> (#[trigger] pats[k]).1 != 0 || pats[k].2 != 0
}

/// Cells that agree on what is claimed have as many claimed cells.
proof fn lemma_count_same(a: Seq<Cell>, b: Seq<Cell>, upto: int)
    requires
        0 <= upto <= a.len(),
        a.len() == b.len(),
        forall|k: int| 0 <= k < upto ==> (#[trigger] a[k]).2 == b[k].2,
    ensures
        count_claimed(a, upto) == count_claimed(b, upto),
    decreases upto,
{
    if upto > 0 {
        lemma_count_same(a, b, upto - 1);
    }
}

/// Claiming one free cell adds one to the count of the prefixes that hold it.
proof fn lemma_count_one_more(before: Seq<Cell>, after: Seq<Cell>, at: int, upto: int)
    requires
        0 <= upto <= before.len(),
        before.len() == after.len(),
        0 <= at < before.len(),
        !before[at].2,
        after[at].2,
        forall|k: int| 0 <= k < before.len() && k != at ==> (#[trigger] after[k]).2 == before[k].2,
    ensures
        count_claimed(after, upto) == count_claimed(before, upto) + if at < upto {
            1int
        } else {
            0int
        },
    decreases upto,
{
    if upto > 0 {
        lemma_count_one_more(before, after, at, upto - 1);
    }
}

/// The steps of a line that does not stand still are different cells.
pub proof fn lemma_line_injective(p: Piece, k1: int, k2: int)
    requires
        k1 != k2,
        p.2.1 != 0 || p.2.2 != 0,
    ensures
        piece_cell(p, k1) != piece_cell(p, k2),
{
    let i = p.2.1 as int;
    let j = p.2.2 as int;
    if i != 0 {
        assert(k1 * i != k2 * i) by (nonlinear_arith)
            requires
                k1 != k2,
                i != 0,
        ;
    } else {
        assert(k1 * j != k2 * j) by (nonlinear_arith)
            requires
                k1 != k2,
                j != 0,
        ;
    }
}

/// Marking the first `upto` cells of a piece that lies on free nonzeros and
/// does not stand still claims `upto` cells more.
pub proof fn lemma_count_mark(cells: Seq<Cell>, p: Piece, upto: int)
    requires
        row_major_sorted(cells),
        piece_free(cells, p),
        0 <= upto <= p.2.0,
        p.2.1 != 0 || p.2.2 != 0,
    ensures
        count_claimed(mark_cells(cells, p, upto), cells.len() as int) == count_claimed(
            cells,
            cells.len() as int,
        ) + upto,
    decreases upto,
{
    let n = cells.len() as int;
    if upto == 0 {
        lemma_count_same(mark_cells(cells, p, 0), cells, n);
    } else {
        lemma_count_mark(cells, p, upto - 1);
        let prev = mark_cells(cells, p, upto - 1);
        let next = mark_cells(cells, p, upto);
        let pos = piece_cell(p, upto - 1);
        assert(uncovered_at(cells, pos));
        let a = choose|a: int|
            0 <= a < cells.len() && #[trigger] cells[a].0 == pos.0 && cells[a].1 == pos.1
                && cells[a].2 == false;
        assert(!prev[a].2) by {
            if exists|k: int|
                0 <= k < upto - 1 && #[trigger] piece_cell(p, k) == (
                    cells[a].0 as int,
                    cells[a].1 as int,
                ) {
                let k = choose|k: int|
                    0 <= k < upto - 1 && #[trigger] piece_cell(p, k) == (
                        cells[a].0 as int,
                        cells[a].1 as int,
                    );
                lemma_line_injective(p, k, upto - 1);
            }
        }
        assert(next[a].2) by {
            assert(piece_cell(p, upto - 1) == (cells[a].0 as int, cells[a].1 as int));
        }
        assert forall|k: int| 0 <= k < prev.len() && k != a implies (#[trigger] next[k]).2
            == prev[k].2 by {
            let at = (cells[k].0 as int, cells[k].1 as int);
            if exists|m: int| 0 <= m < upto && #[trigger] piece_cell(p, m) == at {
                let m = choose|m: int| 0 <= m < upto && #[trigger] piece_cell(p, m) == at;
                if m == upto - 1 {
                    lemma_entry_unique(cells, a, k);
                }
                assert(0 <= m < upto - 1 && piece_cell(p, m) == at);
            }
            if exists|m: int| 0 <= m < upto - 1 && #[trigger] piece_cell(p, m) == at {
                let m = choose|m: int| 0 <= m < upto - 1 && #[trigger] piece_cell(p, m) == at;
                assert(0 <= m < upto && piece_cell(p, m) == at);
            }
        }
        lemma_count_one_more(prev, next, a, n);
    }
}

/// What a search keeps true of the counts: the cells of the pieces are as
/// many as the claimed cells.
pub open spec fn count_inv(st: SearchState) -> bool {
    total_cells(st.pieces) == count_claimed(st.cells, st.cells.len() as int)
}

/// Trying a pattern keeps the count: the pieces have as many cells as are
/// claimed.
proof fn lemma_try_place_count(start: Seq<Cell>, st: SearchState, idx: int, pat: Pattern)
    requires
        row_major_sorted(start),
        same_positions(st.cells, start),
        count_inv(st),
        0 <= idx < st.cells.len(),
        pat.0 >= 1,
        pat.1 != 0 || pat.2 != 0,
    ensures
        count_inv(try_place(st, idx, pat)),
        same_positions(try_place(st, idx, pat).cells, start),
{
    let p: Piece = (st.cells[idx].0, st.cells[idx].1, pat);
    if fits(st.cells, p) {
        assert forall|x: int, y: int| 0 <= x < y < st.cells.len() implies row_major_before(
            st.cells[x].0 as int,
            st.cells[x].1 as int,
            st.cells[y].0 as int,
            st.cells[y].1 as int,
        ) by {
            assert(row_major_before(
                start[x].0 as int,
                start[x].1 as int,
                start[y].0 as int,
                start[y].1 as int,
            ));
        }
        assert forall|k: int| 0 <= k < p.2.0 implies uncovered_at(
            st.cells,
            #[trigger] piece_cell(p, k),
        ) by {
            if k == 0 {
            }
        }
        lemma_count_mark(st.cells, p, p.2.0 as int);
        assert(st.pieces.push(p).drop_last() == st.pieces);
    }
}

/// A pass of one pattern keeps the count.
proof fn lemma_sweep_count(start: Seq<Cell>, st: SearchState, pat: Pattern, upto: int)
    requires
        row_major_sorted(start),
        same_positions(st.cells, start),
        count_inv(st),
        upto <= st.cells.len(),
        pat.0 >= 1,
        pat.1 != 0 || pat.2 != 0,
    ensures
        count_inv(sweep_pattern(st, pat, upto)),
        same_positions(sweep_pattern(st, pat, upto).cells, start),
    decreases upto,
{
    if upto > 0 {
        lemma_sweep_count(start, st, pat, upto - 1);
        lemma_try_place_count(start, sweep_pattern(st, pat, upto - 1), upto - 1, pat);
    }
}

/// The passes of the first patterns keep the count.
proof fn lemma_pattern_first_count(start: Seq<Cell>, st: SearchState, pats: Seq<Pattern>, upto: int)
    requires
        row_major_sorted(start),
        same_positions(st.cells, start),
        count_inv(st),
        upto <= pats.len(),
        patterns_valid(pats),
        patterns_move(pats),
    ensures
        count_inv(pattern_first(st, pats, upto)),
        same_positions(pattern_first(st, pats, upto).cells, start),
    decreases upto,
{
    if upto > 0 {
        lemma_pattern_first_count(start, st, pats, upto - 1);
        lemma_sweep_count(
            start,
            pattern_first(st, pats, upto - 1),
            pats[upto - 1],
            st.cells.len() as int,
        );
    }
}

/// Trying the patterns at each of the first cells keeps the count.
proof fn lemma_cell_first_count(start: Seq<Cell>, st: SearchState, pats: Seq<Pattern>, upto: int)
    requires
        row_major_sorted(start),
        same_positions(st.cells, start),
        count_inv(st),
        upto <= st.cells.len(),
        patterns_valid(pats),
        patterns_move(pats),
    ensures
        count_inv(cell_first(st, pats, upto)),
        same_positions(cell_first(st, pats, upto).cells, start),
    decreases upto,
{
    if upto > 0 {
        lemma_cell_first_count(start, st, pats, upto - 1);
        let prev = cell_first(st, pats, upto - 1);
        lemma_first_fit(prev.cells, prev.cells[upto - 1].0, prev.cells[upto - 1].1, pats, 0);
        match first_fit(prev.cells, prev.cells[upto - 1].0, prev.cells[upto - 1].1, pats, 0) {
            Some(p) => {
                lemma_try_place_count(start, prev, upto - 1, pats[p]);
            },
            None => {},
        }
    }
}

/// The cells of two lists of pieces add up.
pub proof fn lemma_total_concat(a: Seq<Piece>, b: Seq<Piece>)
    ensures
        total_cells(a + b) == total_cells(a) + total_cells(b),
    decreases b.len(),
{
    if b.len() == 0 {
        assert(a + b == a);
    } else {
        lemma_total_concat(a, b.drop_last());
        assert((a + b).drop_last() == a + b.drop_last());
        assert((a + b).last() == b.last());
    }
}

/// Among the first cells, the single points and the claimed cells are all
/// there is.
proof fn lemma_residual_total(cells: Seq<Cell>, upto: int)
    requires
        0 <= upto <= cells.len(),
    ensures
        total_cells(residuals(cells, upto)) + count_claimed(cells, upto) == upto,
    decreases upto,
{
    if upto > 0 {
        lemma_residual_total(cells, upto - 1);
        if !cells[upto - 1].2 {
            let prev = residuals(cells, upto - 1);
            let point: Piece = (cells[upto - 1].0, cells[upto - 1].1, (1i32, 0i32, 0i32));
            assert(prev.push(point).drop_last() == prev);
        }
    }
}

/// The cells of the pieces of a search, each piece counted with its length,
/// are as many as the nonzeros, provided that no pattern stands still: a
/// pattern `(N, 0, 0)` would count one nonzero `N` times.
pub proof fn lemma_search_counts(cells: Seq<Cell>, pats: Seq<Pattern>, by_cell: bool)
    requires
        row_major_sorted(cells),
        all_free(cells),
        patterns_valid(pats),
        patterns_move(pats),
    ensures
        total_cells(search_pieces(fresh(cells), pats, by_cell)) == cells.len(),
{
    let st = fresh(cells);
    let n = cells.len() as int;
    lemma_count_same(cells, cells, n);
    assert(count_claimed(cells, n) == 0) by {
        lemma_count_free(cells, n);
    }
    if by_cell {
        lemma_cell_first_count(cells, st, pats, n);
    } else {
        lemma_pattern_first_count(cells, st, pats, pats.len() as int);
    }
    let end = matched(st, pats, by_cell);
    let res = residuals(end.cells, end.cells.len() as int);
    lemma_residual_total(end.cells, end.cells.len() as int);
    lemma_total_concat(end.pieces, res);
}

/// Where every cell is free, none is claimed.
proof fn lemma_count_free(cells: Seq<Cell>, upto: int)
    requires
        all_free(cells),
        0 <= upto <= cells.len(),
    ensures
        count_claimed(cells, upto) == 0,
    decreases upto,
{
    if upto > 0 {
        lemma_count_free(cells, upto - 1);
    }
}

/// Every piece of the list has one of the patterns.
pub open spec fn from_patterns(pieces: Seq<Piece>, pats: Seq<Pattern>) -> bool {
    forall|q: int|
        0 <= q < pieces.len() ==> exists|k: int|
            0 <= k < pats.len() && (#[trigger] pieces[q]).2 == #[trigger] pats[k]
}

/// Trying one of the patterns places a piece of one of the patterns.
proof fn lemma_try_place_from(st: SearchState, idx: int, pats: Seq<Pattern>, k: int)
    requires
        from_patterns(st.pieces, pats),
        0 <= k < pats.len(),
    ensures
        from_patterns(try_place(st, idx, pats[k]).pieces, pats),
{
    let next = try_place(st, idx, pats[k]);
    assert forall|q: int| 0 <= q < next.pieces.len() implies exists|m: int|
        0 <= m < pats.len() && (#[trigger] next.pieces[q]).2 == #[trigger] pats[m] by {
        if q < st.pieces.len() {
            assert(next.pieces[q] == st.pieces[q]);
            let m = choose|m: int| 0 <= m < pats.len() && st.pieces[q].2 == #[trigger] pats[m];
            assert(next.pieces[q].2 == pats[m]);
        } else {
            assert(next.pieces[q].2 == pats[k]);
        }
    }
}

/// A pass of one of the patterns places pieces of the patterns only.
proof fn lemma_sweep_from(st: SearchState, pats: Seq<Pattern>, k: int, upto: int)
    requires
        from_patterns(st.pieces, pats),
        0 <= k < pats.len(),
    ensures
        from_patterns(sweep_pattern(st, pats[k], upto).pieces, pats),
    decreases upto,
{
    if upto > 0 {
        lemma_sweep_from(st, pats, k, upto - 1);
        lemma_try_place_from(sweep_pattern(st, pats[k], upto - 1), upto - 1, pats, k);
    }
}

/// The passes of the first patterns place pieces of the patterns only.
proof fn lemma_pattern_first_from(st: SearchState, pats: Seq<Pattern>, upto: int)
    requires
        from_patterns(st.pieces, pats),
        upto <= pats.len(),
    ensures
        from_patterns(pattern_first(st, pats, upto).pieces, pats),
    decreases upto,
{
    if upto > 0 {
        lemma_pattern_first_from(st, pats, upto - 1);
        lemma_sweep_from(pattern_first(st, pats, upto - 1), pats, upto - 1, st.cells.len() as int);
    }
}

/// Trying the patterns at each of the first cells places pieces of the
/// patterns only.
proof fn lemma_cell_first_from(st: SearchState, pats: Seq<Pattern>, upto: int)
    requires
        from_patterns(st.pieces, pats),
    ensures
        from_patterns(cell_first(st, pats, upto).pieces, pats),
    decreases upto,
{
    if upto > 0 {
        lemma_cell_first_from(st, pats, upto - 1);
        let prev = cell_first(st, pats, upto - 1);
        lemma_first_fit(prev.cells, prev.cells[upto - 1].0, prev.cells[upto - 1].1, pats, 0);
        match first_fit(prev.cells, prev.cells[upto - 1].0, prev.cells[upto - 1].1, pats, 0) {
            Some(p) => {
                lemma_try_place_from(prev, upto - 1, pats, p);
            },
            None => {},
        }
    }
}

/// Every pattern has at least two cells.
pub open spec fn patterns_long(pats: Seq<Pattern>) -> bool {
    forall|k: int| 0 <= k < pats.len() ==> (#[trigger] pats[k]).0 >= 2
}

/// The shape of what a search returns: first the pieces committed, each
/// with one of the patterns, then the single points.
pub proof fn lemma_search_shape(cells: Seq<Cell>, pats: Seq<Pattern>, by_cell: bool)
    requires
        row_major_sorted(cells),
        all_free(cells),
        patterns_long(pats),
    ensures
        ({
            let end = matched(fresh(cells), pats, by_cell);
            let res = residuals(end.cells, end.cells.len() as int);
            let out = search_pieces(fresh(cells), pats, by_cell);
            &&& out == end.pieces + res
            &&& cover_inv(cells, end)
            &&& from_patterns(end.pieces, pats)
            &&& forall|q: int| 0 <= q < end.pieces.len() ==> (#[trigger] out[q]).2.0 >= 2
            &&& forall|q: int|
                end.pieces.len() <= q < out.len() ==> (#[trigger] out[q]).2 == (1i32, 0i32, 0i32)
            &&& res.len() <= cells.len()
            &&& points_from_free(cells, end.cells, res)
            &&& free_have_points(cells, end.cells, res)
            &&& points_apart(res)
        }),
{
    let st = fresh(cells);
    let end = matched(st, pats, by_cell);
    let res = residuals(end.cells, end.cells.len() as int);
    let out = search_pieces(st, pats, by_cell);
    assert(patterns_valid(pats)) by {
        assert forall|k: int| 0 <= k < pats.len() implies (#[trigger] pats[k]).0 >= 1 by {}
    }
    lemma_end(cells, pats, by_cell);
    assert(from_patterns(st.pieces, pats));
    if by_cell {
        lemma_cell_first_from(st, pats, cells.len() as int);
    } else {
        lemma_pattern_first_from(st, pats, pats.len() as int);
    }
    lemma_residuals(end.cells, end.cells.len() as int);
    assert forall|q: int| 0 <= q < end.pieces.len() implies (#[trigger] out[q]).2.0 >= 2 by {
        assert(out[q] == end.pieces[q]);
        let k = choose|k: int| 0 <= k < pats.len() && end.pieces[q].2 == #[trigger] pats[k];
    }
    assert forall|q: int| end.pieces.len() <= q < out.len() implies (#[trigger] out[q]).2 == (
        1i32,
        0i32,
        0i32,
    ) by {
        let r = q - end.pieces.len();
        assert(out[q] == res[r]);
        let idx = choose|idx: int|
            0 <= idx < cells.len() && !end.cells[idx].2 && #[trigger] res[r] == (
                (#[trigger] cells[idx]).0,
                cells[idx].1,
                (1i32, 0i32, 0i32),
            );
    }
}

} // verus!
