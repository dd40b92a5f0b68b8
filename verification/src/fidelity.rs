//! From a matrix to a file and back: what the search, the inventory and
//! the file format guarantee together.

use vstd::prelude::*;
use crate::cover::{
    claimed_by, disjoint, fresh, lemma_search_counts, lemma_search_partitions, lemma_search_shape,
    patterns_long, patterns_move, patterns_valid, piece_free, total_cells,
};
use crate::errors::ErrorKind;
use crate::grid::{
    all_free, has_entry, lemma_entry_unique, row_major_before, row_major_sorted, value_at, within,
    Cell,
};
use crate::inventory::{
    SINGLE, axis_cells, inventory_cells, piece_cells, pieces_ok, shape_cells, shape_size, shapes_ok,
    single_shape, singles_last,
};
use crate::layout::{
    cutoff, encodable, file_bytes, offset_before, placed_count, single_points, uses_csr,
    values_before, values_of, FileView,
};
use crate::ordered::{distinct_keys, has_key, lemma_lookup_at, lemma_put, lookup};
use crate::roundtrip::{expanded, file_ok, flip, lemma_decode_encode, points_sorted};
use crate::spfgen::{
    count_singles, id_of, known_id, lemma_id_of, lemma_list_shapes, list_shapes, long_patterns,
    pieces_valid, placed,
};
use crate::spfread::{cells_inside, decode, MatrixView};
use crate::spsearch::{matched, on_piece, piece_cell, residuals, search_pieces, uncovered_at};
use crate::utils::{axes, order_of, sub_id, MetaPatternPiece, Pattern, Piece};

verus! {

/// The cells of a piece, from its origin on.
pub open spec fn line_of(p: Piece) -> Seq<(int, int)> {
    Seq::new(
        if p.2.0 > 0 {
            p.2.0 as nat
        } else {
            0nat
        },
        |k: int| piece_cell(p, k),
    )
}

/// The cells of the first `upto` pieces, piece after piece.
pub open spec fn lines_of(list: Seq<Piece>, upto: int) -> Seq<(int, int)>
    decreases upto,
{
    if upto <= 0 {
        Seq::empty()
    } else {
        lines_of(list, upto - 1) + line_of(list[upto - 1])
    }
}

/// A shape of one axis stands for the cells of its line.
pub proof fn lemma_line_cells(p: Pattern, row: usize, col: usize, upto: int)
    requires
        0 <= upto,
    ensures
        axis_cells(seq![p], row as int, col as int, upto) == Seq::new(
            upto as nat,
            |k: int| piece_cell((row, col, p), k),
        ),
    decreases upto,
{
    let ax = seq![p];
    if upto > 0 {
        lemma_line_cells(p, row, col, upto - 1);
        assert(ax.skip(1) =~= Seq::<Pattern>::empty());
        let r2 = row + (upto - 1) * p.1;
        let c2 = col + (upto - 1) * p.2;
        assert(shape_cells(ax.skip(1), r2, c2) == seq![(r2, c2)]);
        assert(piece_cell((row, col, p), upto - 1) == (r2, c2));
        assert(axis_cells(ax, row as int, col as int, upto) =~= Seq::new(
            upto as nat,
            |k: int| piece_cell((row, col, p), k),
        ));
    } else {
        assert(axis_cells(ax, row as int, col as int, upto) =~= Seq::new(
            upto as nat,
            |k: int| piece_cell((row, col, p), k),
        ));
    }
}

/// What the inventory of a list of valid pieces knows of the pattern of a
/// piece: it is recorded as a shape of order one under the id of the
/// piece, which is that of the single points for the single point only.
pub proof fn lemma_piece_shape(list: Seq<Piece>, q: int)
    requires
        pieces_valid(list),
        list.len() <= i32::MAX,
        0 <= q < list.len(),
    ensures
        ({
            let shapes = list_shapes(list);
            let id = known_id(shapes, list[q].2);
            &&& lookup(shapes, id) == Some((list[q].2, 1i32, None::<i32>))
            &&& (id == SINGLE) == (list[q].2.0 == 1)
            &&& axes(shapes, id, order_of(shapes, id)) == seq![list[q].2]
            &&& piece_cells(shapes, (list[q].0, list[q].1), id) == line_of(list[q])
        }),
{
    let shapes = list_shapes(list);
    let p = list[q].2;
    let id = known_id(shapes, p);
    let long = long_patterns(list, list.len() as int);
    let distinct = crate::ordered::last_occurrences(long);
    let d = distinct.len() as int;
    lemma_list_shapes(list);
    crate::spfgen::lemma_last_occurrences(long);
    crate::spfgen::lemma_long_patterns(list, list.len() as int);
    lemma_id_of(shapes, p, shapes.len() as int);
    assert(has_key(shapes, id));
    assert(id_of(shapes, p, shapes.len() as int) is Some) by {
        if id_of(shapes, p, shapes.len() as int) is None {
            if p.0 > 1 {
                assert(long.contains(p));
                assert(distinct.contains(p));
                let a = choose|a: int| 0 <= a < distinct.len() && distinct[a] == p;
                assert(shapes[a].1.0 == p);
            } else {
                assert(shapes[d].1.0 == p);
            }
        }
    }
    let m = choose|m: int|
        0 <= m < shapes.len() && #[trigger] shapes[m] == (id, shapes[m].1) && shapes[m].1.0 == p;
    lemma_lookup_at(shapes, m);
    if m < d {
        assert(shapes[m] == (m as i32, (distinct[m], 1i32, None::<i32>)));
        assert(distinct.contains(distinct[m]));
        assert(long.contains(distinct[m]));
        let j = choose|j: int| 0 <= j < long.len() && long[j] == distinct[m];
        assert(long[j].0 > 1);
    } else {
        assert(shapes[d] == (SINGLE, single_shape()));
    }
    assert(lookup(shapes, id) == Some((p, 1i32, None::<i32>)));
    let ax = axes(shapes, id, order_of(shapes, id));
    assert(axes(shapes, sub_id((p, 1i32, None::<i32>)), 0) =~= Seq::<Pattern>::empty());
    assert(ax =~= seq![p]);
    lemma_line_cells(p, list[q].0, list[q].1, p.0 as int);
    assert(piece_cells(shapes, (list[q].0, list[q].1), id) =~= line_of(list[q]));
}

/// No two pieces of the list start at the same cell.
pub open spec fn origins_apart(list: Seq<Piece>) -> bool {
    forall|a: int, b: int|
        0 <= a < b < list.len() ==> ((#[trigger] list[a]).0, list[a].1) != (
            (#[trigger] list[b]).0,
            list[b].1,
        )
}

/// The pieces of a list entered by origin under the ids of their patterns.
pub open spec fn entered(list: Seq<Piece>, upto: int) -> Seq<(MetaPatternPiece, i32)> {
    Seq::new(
        upto as nat,
        |k: int| ((list[k].0, list[k].1), known_id(list_shapes(list), list[k].2)),
    )
}

/// Pieces with different origins are entered one behind the other.
pub proof fn lemma_placed(list: Seq<Piece>, upto: int)
    requires
        origins_apart(list),
        0 <= upto <= list.len(),
    ensures
        placed(list, list_shapes(list), upto) == entered(list, upto),
        distinct_keys(entered(list, upto)),
    decreases upto,
{
    let shapes = list_shapes(list);
    if upto > 0 {
        lemma_placed(list, upto - 1);
        let before = entered(list, upto - 1);
        let key = (list[upto - 1].0, list[upto - 1].1);
        let id = known_id(shapes, list[upto - 1].2);
        assert(!has_key(before, key)) by {
            if has_key(before, key) {
                let i = choose|i: int| 0 <= i < before.len() && (#[trigger] before[i]).0 == key;
                assert((list[i].0, list[i].1) != (list[upto - 1].0, list[upto - 1].1));
            }
        }
        lemma_put(before, key, id);
        assert(before.push((key, id)) =~= entered(list, upto));
    } else {
        assert(placed(list, shapes, 0) =~= entered(list, 0));
    }
}

/// The view of the inventory of a list of pieces.
pub open spec fn list_view(list: Seq<Piece>, nrows: usize, ncols: usize, nnz: usize, transpose: bool) -> FileView {
    FileView {
        nrows,
        ncols,
        nnz,
        inc_nnz: (nnz - count_singles(list, list.len() as int)) as usize,
        pats: list_shapes(list),
        pieces: placed(list, list_shapes(list), list.len() as int),
        transpose,
    }
}

/// A list of pieces as a search returns it: the pieces are valid and start
/// at different cells, the single points come last, in row-major order,
/// the cells of every piece lie inside the matrix, and all pieces together
/// have `nnz` cells.
pub open spec fn list_ok(list: Seq<Piece>, nrows: int, ncols: int, nnz: int) -> bool {
    &&& pieces_valid(list)
    &&& list.len() <= i32::MAX
    &&& origins_apart(list)
    &&& forall|a: int, b: int|
        0 <= a < b < list.len() && (#[trigger] list[a]).2.0 == 1 ==> (#[trigger] list[b]).2.0 == 1
            && row_major_before(
            list[a].0 as int,
            list[a].1 as int,
            list[b].0 as int,
            list[b].1 as int,
        )
    &&& forall|q: int| 0 <= q < list.len() ==> cells_inside(line_of(#[trigger] list[q]), nrows, ncols)
    &&& total_cells(list) == nnz
}

/// The cells of the inventory of a list are the cells of its pieces, and
/// the counts of the two agree.
pub proof fn lemma_list_cells(list: Seq<Piece>, nrows: usize, ncols: usize, nnz: usize, transpose: bool, upto: int)
    requires
        pieces_valid(list),
        list.len() <= i32::MAX,
        origins_apart(list),
        0 <= upto <= list.len(),
    ensures
        ({
            let f = list_view(list, nrows, ncols, nnz, transpose);
            &&& f.pieces == entered(list, list.len() as int)
            &&& inventory_cells(f.pats, f.pieces, upto) == lines_of(list, upto)
            &&& offset_before(f, upto) == total_cells(list.take(upto))
            &&& placed_count(f.pieces, upto) + count_singles(list, upto) == upto
            &&& 0 <= count_singles(list, upto) <= total_cells(list.take(upto))
            &&& upto <= total_cells(list.take(upto))
        }),
    decreases upto,
{
    let f = list_view(list, nrows, ncols, nnz, transpose);
    lemma_placed(list, list.len() as int);
    if upto > 0 {
        lemma_list_cells(list, nrows, ncols, nnz, transpose, upto - 1);
        lemma_piece_shape(list, upto - 1);
        let p = list[upto - 1].2;
        assert(list.take(upto).drop_last() == list.take(upto - 1));
        assert(list.take(upto).last() == list[upto - 1]);
        let ax = seq![p];
        assert(ax.skip(1) =~= Seq::<Pattern>::empty());
        assert(shape_size(ax.skip(1)) == 1);
        assert(shape_size(ax) == p.0 * 1);
        assert(f.pieces[upto - 1] == ((list[upto - 1].0, list[upto - 1].1), known_id(
            f.pats,
            p,
        )));
    } else {
        assert(list.take(0) =~= Seq::<Piece>::empty());
    }
}

/// The inventory of a list of pieces as a search returns it is ready to be
/// written: its single points are no more than the nonzeros, its shapes
/// and pieces are consistent, the single points stand last, and every
/// origin and every cell of a piece lies inside the matrix.
pub proof fn lemma_list_ready(list: Seq<Piece>, nrows: usize, ncols: usize, nnz: usize)
    requires
        list_ok(list, nrows as int, ncols as int, nnz as int),
    ensures
        count_singles(list, list.len() as int) <= nnz,
        ({
            let pats = list_shapes(list);
            let pieces = placed(list, pats, list.len() as int);
            &&& pieces.len() == list.len()
            &&& shapes_ok(pats)
            &&& pieces_ok(pats, pieces)
            &&& singles_last(pieces)
            &&& forall|k: int|
                0 <= k < pieces.len() ==> (#[trigger] pieces[k]).0.0 < nrows && pieces[k].0.1 < ncols
            &&& forall|k: int|
                0 <= k < pieces.len() ==> has_key(pats, (#[trigger] pieces[k]).1) && ((pieces[k].1
                    == SINGLE) == (list[k].2.0 == 1)) && piece_cells(pats, pieces[k].0, pieces[k].1)
                    == line_of(list[k]) && pieces[k].0 == (list[k].0, list[k].1)
            &&& forall|k: int|
                0 <= k < pieces.len() ==> cells_inside(
                    piece_cells(pats, (#[trigger] pieces[k]).0, pieces[k].1),
                    nrows as int,
                    ncols as int,
                )
        }),
{
    let f = list_view(list, nrows, ncols, nnz, false);
    let n = list.len() as int;
    lemma_list_shapes(list);
    lemma_list_cells(list, nrows, ncols, nnz, false, n);
    assert(list.take(n) == list);
    lemma_placed(list, n);
    assert forall|k: int| 0 <= k < f.pieces.len() implies has_key(f.pats, (#[trigger] f.pieces[k]).1)
        && ((f.pieces[k].1 == SINGLE) == (list[k].2.0 == 1)) && piece_cells(
        f.pats,
        f.pieces[k].0,
        f.pieces[k].1,
    ) == line_of(list[k]) && f.pieces[k].0 == (list[k].0, list[k].1) by {
        lemma_piece_shape(list, k);
    }
    assert(singles_last(f.pieces)) by {
        assert forall|a: int, b: int|
            0 <= a < b < f.pieces.len() && (#[trigger] f.pieces[a]).1 == SINGLE implies (
        #[trigger] f.pieces[b]).1 == SINGLE by {
            assert(list[a].2.0 == 1);
            assert(list[b].2.0 == 1);
        }
    }
    assert forall|k: int| 0 <= k < f.pieces.len() implies (#[trigger] f.pieces[k]).0.0 < f.nrows
        && f.pieces[k].0.1 < f.ncols by {
        let line = line_of(list[k]);
        assert(cells_inside(line, nrows as int, ncols as int));
        assert(list[k].2.0 >= 1);
        assert(line[0] == piece_cell(list[k], 0));
        assert(0 <= line[0].0 < nrows);
    }
    assert forall|k: int| 0 <= k < f.pieces.len() implies cells_inside(
        piece_cells(f.pats, (#[trigger] f.pieces[k]).0, f.pieces[k].1),
        f.nrows as int,
        f.ncols as int,
    ) by {
        assert(cells_inside(line_of(list[k]), nrows as int, ncols as int));
    }
}

/// The inventory of a list of pieces as a search returns it can be written
/// and read back, where it fits the fields of the file. For a transposed
/// file whose single points are indexed by compressed rows, the single
/// points must, in addition, stand in row-major order as the file holds
/// them.
pub proof fn lemma_list_file_ok(list: Seq<Piece>, nrows: usize, ncols: usize, nnz: usize, transpose: bool)
    requires
        list_ok(list, nrows as int, ncols as int, nnz as int),
        encodable(list_view(list, nrows, ncols, nnz, transpose)),
        transpose && uses_csr(list_view(list, nrows, ncols, nnz, transpose)) ==> points_sorted(
            single_points(list_view(list, nrows, ncols, nnz, transpose)),
        ),
    ensures
        file_ok(list_view(list, nrows, ncols, nnz, transpose)),
{
    let f = list_view(list, nrows, ncols, nnz, transpose);
    let n = list.len() as int;
    lemma_list_ready(list, nrows, ncols, nnz);
    lemma_list_shapes(list);
    lemma_list_cells(list, nrows, ncols, nnz, transpose, n);
    assert(list.take(n) == list);
    if has_key(f.pats, SINGLE) {
        let k = choose|k: int| 0 <= k < f.pats.len() && (#[trigger] f.pats[k]).0 == SINGLE;
        lemma_lookup_at(f.pats, k);
        lemma_lookup_at(f.pats, f.pats.len() - 1);
    }
    crate::spfgen::lemma_cutoff(f.pieces, f.pieces.len() as int);
    if uses_csr(f) && !transpose {
        let points = single_points(f);
        let cut = cutoff(f);
        assert forall|a: int, b: int|
            #![trigger points[a], points[b]]
            0 <= a < b < points.len() implies points[a].0 < points[b].0 || (points[a].0
            == points[b].0 && points[a].1 < points[b].1) by {
            assert(f.pieces[cut + a].1 == SINGLE);
            assert(list[cut + a].2.0 == 1);
            assert(row_major_before(
                list[cut + a].0 as int,
                list[cut + a].1 as int,
                list[cut + b].0 as int,
                list[cut + b].1 as int,
            ));
        }
    }
}

/// A list of pieces of at least one cell each has no more pieces than
/// cells.
proof fn lemma_total_floor(list: Seq<Piece>)
    requires
        forall|q: int| 0 <= q < list.len() ==> (#[trigger] list[q]).2.0 >= 1,
    ensures
        list.len() <= total_cells(list),
    decreases list.len(),
{
    if list.len() > 0 {
        let front = list.drop_last();
        assert forall|q: int| 0 <= q < front.len() implies (#[trigger] front[q]).2.0 >= 1 by {
            assert(front[q] == list[q]);
        }
        lemma_total_floor(front);
        assert(list.last() == list[list.len() - 1]);
    }
}

/// What a search of a fresh matrix returns is a list of pieces that an
/// inventory can be made of.
pub proof fn lemma_search_list_ok(
    cells: Seq<Cell>,
    nrows: int,
    ncols: int,
    pats: Seq<Pattern>,
    by_cell: bool,
)
    requires
        row_major_sorted(cells),
        within(cells, nrows, ncols),
        all_free(cells),
        cells.len() <= i32::MAX,
        patterns_long(pats),
        patterns_move(pats),
    ensures
        list_ok(search_pieces(fresh(cells), pats, by_cell), nrows, ncols, cells.len() as int),
{
    let out = search_pieces(fresh(cells), pats, by_cell);
    let end = matched(fresh(cells), pats, by_cell);
    let res = residuals(end.cells, end.cells.len() as int);
    assert(patterns_valid(pats)) by {
        assert forall|k: int| 0 <= k < pats.len() implies (#[trigger] pats[k]).0 >= 1 by {}
    }
    lemma_search_shape(cells, pats, by_cell);
    lemma_search_partitions(cells, pats, by_cell);
    lemma_search_counts(cells, pats, by_cell);
    let m = end.pieces.len() as int;
    assert forall|q: int| 0 <= q < out.len() implies (#[trigger] out[q]).2.0 > 1 || out[q].2 == (
        1i32,
        0i32,
        0i32,
    ) by {
        if q < m {
            assert(out[q].2.0 >= 2);
        }
    }
    assert forall|q: int| 0 <= q < out.len() implies (#[trigger] out[q]).2.0 >= 1 by {
        if q < m {
            assert(out[q].2.0 >= 2);
        } else {
            assert(out[q].2 == (1i32, 0i32, 0i32));
        }
    }
    lemma_total_floor(out);
    assert(origins_apart(out)) by {
        assert forall|a: int, b: int| 0 <= a < b < out.len() implies ((#[trigger] out[a]).0, out[a].1)
            != ((#[trigger] out[b]).0, out[b].1) by {
            assert(disjoint(out[a], out[b]));
            assert(out[a].2.0 >= 1 && out[b].2.0 >= 1);
            assert(piece_cell(out[a], 0) != piece_cell(out[b], 0));
        }
    }
    assert forall|a: int, b: int|
        0 <= a < b < out.len() && (#[trigger] out[a]).2.0 == 1 implies (#[trigger] out[b]).2.0 == 1
        && row_major_before(
        out[a].0 as int,
        out[a].1 as int,
        out[b].0 as int,
        out[b].1 as int,
    ) by {
        if a < m {
            assert(out[a].2.0 >= 2);
        }
        assert(out[b].2 == (1i32, 0i32, 0i32));
        assert(out[a] == res[a - m]);
        assert(out[b] == res[b - m]);
        assert(row_major_before(
            res[a - m].0 as int,
            res[a - m].1 as int,
            res[b - m].0 as int,
            res[b - m].1 as int,
        ));
    }
    assert forall|q: int| 0 <= q < out.len() implies cells_inside(
        line_of(#[trigger] out[q]),
        nrows,
        ncols,
    ) by {
        let line = line_of(out[q]);
        assert(piece_free(cells, out[q]));
        assert forall|k: int| 0 <= k < line.len() implies 0 <= (#[trigger] line[k]).0 < nrows && 0
            <= line[k].1 < ncols by {
            let pos = piece_cell(out[q], k);
            assert(uncovered_at(cells, pos));
            let a = choose|a: int|
                0 <= a < cells.len() && #[trigger] cells[a].0 == pos.0 && cells[a].1 == pos.1
                    && cells[a].2 == false;
            assert(cells[a].0 < nrows && cells[a].1 < ncols);
        }
    }
}

/// The grid holds a value for each nonzero of the matrix and nothing
/// else.
pub open spec fn holds_matrix(grid: Seq<(usize, usize, u64)>, cells: Seq<Cell>) -> bool {
    &&& row_major_sorted(grid)
    &&& grid.len() == cells.len()
    &&& forall|k: int|
        0 <= k < grid.len() ==> (#[trigger] grid[k]).0 == cells[k].0 && grid[k].1 == cells[k].1
}

/// The values of the cells of the first pieces are the values of their
/// lines.
proof fn lemma_values_of_lines(f: FileView, list: Seq<Piece>, grid: Seq<(usize, usize, u64)>, upto: int)
    requires
        0 <= upto <= f.pieces.len(),
        upto <= list.len(),
        forall|k: int|
            0 <= k < upto ==> piece_cells(f.pats, (#[trigger] f.pieces[k]).0, f.pieces[k].1)
                == line_of(list[k]),
    ensures
        values_before(f, grid, upto) == values_of(lines_of(list, upto), grid),
    decreases upto,
{
    if upto > 0 {
        lemma_values_of_lines(f, list, grid, upto - 1);
        assert(piece_cells(f.pats, f.pieces[upto - 1].0, f.pieces[upto - 1].1) == line_of(
            list[upto - 1],
        ));
        assert(values_of(lines_of(list, upto), grid) =~= values_of(
            lines_of(list, upto - 1),
            grid,
        ) + values_of(line_of(list[upto - 1]), grid));
    } else {
        assert(values_of(lines_of(list, 0), grid) =~= Seq::<u64>::empty());
    }
}

/// A cell stands among the cells of the first pieces exactly where one of
/// those pieces holds it.
proof fn lemma_lines_members(list: Seq<Piece>, upto: int, cell: (int, int))
    requires
        0 <= upto <= list.len(),
    ensures
        lines_of(list, upto).contains(cell) <==> claimed_by(list.take(upto), cell.0, cell.1),
    decreases upto,
{
    let all = lines_of(list, upto);
    let some = list.take(upto);
    if upto > 0 {
        lemma_lines_members(list, upto - 1, cell);
        let before = lines_of(list, upto - 1);
        let fewer = list.take(upto - 1);
        let last = list[upto - 1];
        let line = line_of(last);
        if all.contains(cell) {
            let j = choose|j: int| 0 <= j < all.len() && all[j] == cell;
            if j < before.len() {
                assert(before[j] == cell);
                assert(before.contains(cell));
                let q = choose|q: int|
                    0 <= q < fewer.len() && on_piece(#[trigger] fewer[q], cell.0, cell.1);
                assert(some[q] == fewer[q]);
                assert(on_piece(some[q], cell.0, cell.1));
            } else {
                let k = j - before.len();
                assert(line[k] == cell);
                assert(piece_cell(last, k) == cell);
                assert(some[upto - 1] == last);
                assert(on_piece(some[upto - 1], cell.0, cell.1));
            }
        }
        if claimed_by(some, cell.0, cell.1) {
            let q = choose|q: int| 0 <= q < some.len() && on_piece(#[trigger] some[q], cell.0, cell.1);
            if q < upto - 1 {
                assert(fewer[q] == some[q]);
                assert(on_piece(fewer[q], cell.0, cell.1));
                assert(claimed_by(fewer, cell.0, cell.1));
                let j = choose|j: int| 0 <= j < before.len() && before[j] == cell;
                assert(all[j] == cell);
            } else {
                assert(some[q] == last);
                let k = choose|k: int|
                    0 <= k < last.2.0 && #[trigger] piece_cell(last, k) == (cell.0, cell.1);
                assert(line[k] == cell);
                assert(all[before.len() + k] == cell);
            }
        }
    } else {
        assert(some.len() == 0);
        assert(all.len() == 0);
    }
}

/// What a search of a fresh matrix returns can be made into an inventory,
/// and that inventory can be handed to the writer: the list is valid and
/// short enough, its single points are no more than the nonzeros, and
/// the inventory made of it is consistent, with the single points last and
/// every origin inside the matrix.
pub proof fn lemma_search_ready(
    cells: Seq<Cell>,
    nrows: usize,
    ncols: usize,
    pats: Seq<Pattern>,
    by_cell: bool,
)
    requires
        row_major_sorted(cells),
        within(cells, nrows as int, ncols as int),
        all_free(cells),
        cells.len() <= i32::MAX,
        patterns_long(pats),
        patterns_move(pats),
    ensures
        ({
            let list = search_pieces(fresh(cells), pats, by_cell);
            let shapes = list_shapes(list);
            let pieces = placed(list, shapes, list.len() as int);
            &&& pieces_valid(list)
            &&& list.len() <= i32::MAX
            &&& count_singles(list, list.len() as int) <= cells.len()
            &&& shapes_ok(shapes)
            &&& pieces_ok(shapes, pieces)
            &&& singles_last(pieces)
            &&& forall|k: int|
                0 <= k < pieces.len() ==> (#[trigger] pieces[k]).0.0 < nrows && pieces[k].0.1 < ncols
        }),
{
    let list = search_pieces(fresh(cells), pats, by_cell);
    lemma_search_list_ok(cells, nrows as int, ncols as int, pats, by_cell);
    lemma_list_ready(list, nrows, ncols, cells.len() as usize);
}

/// The file view of the inventory that is made of what a search of the
/// matrix returns.
pub open spec fn search_view(
    cells: Seq<Cell>,
    nrows: usize,
    ncols: usize,
    pats: Seq<Pattern>,
    by_cell: bool,
    transpose: bool,
) -> FileView {
    list_view(
        search_pieces(fresh(cells), pats, by_cell),
        nrows,
        ncols,
        cells.len() as usize,
        transpose,
    )
}

/// The decoded matrix holds the value at the cell.
pub open spec fn decoded_has(m: MatrixView, cell: (int, int), value: u64) -> bool {
    exists|j: int| 0 <= j < m.cells.len() && #[trigger] m.cells[j] == cell && m.values[j] == value
}

/// The matrix holds the value at the cell, as the file holds cells.
pub open spec fn matrix_has(
    cells: Seq<Cell>,
    grid: Seq<(usize, usize, u64)>,
    transpose: bool,
    cell: (int, int),
    value: u64,
) -> bool {
    exists|idx: int|
        0 <= idx < cells.len() && flip(
            ((#[trigger] cells[idx]).0 as int, cells[idx].1 as int),
            transpose,
        ) == cell && grid[idx].2 == value
}

/// Searching a matrix, writing the inventory of the pieces found and
/// reading the file back gives the matrix: the decoded cells are as many as
/// the nonzeros, every nonzero is decoded with its value, and every decoded
/// cell is a nonzero with its value. With `transpose` the file and what it
/// decodes to are the transposed matrix.
///
/// This holds for every list of patterns of at least two cells that do not
/// stand still, both orders of visits, and every matrix that fits the
/// fields of the file. A transposed file whose single points are indexed by
/// compressed rows is read back rightly only where those points stand in
/// row-major order after rows and columns were exchanged: the index is
/// sorted, the values are not.
pub proof fn lemma_round_trip(
    cells: Seq<Cell>,
    nrows: usize,
    ncols: usize,
    pats: Seq<Pattern>,
    by_cell: bool,
    grid: Seq<(usize, usize, u64)>,
    transpose: bool,
)
    requires
        row_major_sorted(cells),
        within(cells, nrows as int, ncols as int),
        all_free(cells),
        cells.len() <= i32::MAX,
        patterns_long(pats),
        patterns_move(pats),
        holds_matrix(grid, cells),
        encodable(search_view(cells, nrows, ncols, pats, by_cell, transpose)),
        transpose && uses_csr(search_view(cells, nrows, ncols, pats, by_cell, transpose))
            ==> points_sorted(
            single_points(search_view(cells, nrows, ncols, pats, by_cell, transpose)),
        ),
    ensures
        ({
            let f = search_view(cells, nrows, ncols, pats, by_cell, transpose);
            let m = expanded(f, grid);
            &&& decode(file_bytes(f, grid)) == Ok::<MatrixView, ErrorKind>(m)
            &&& m.nrows == if transpose {
                ncols
            } else {
                nrows
            }
            &&& m.ncols == if transpose {
                nrows
            } else {
                ncols
            }
            &&& m.cells.len() == cells.len()
            &&& m.values.len() == cells.len()
            &&& forall|idx: int|
                0 <= idx < cells.len() ==> decoded_has(
                    m,
                    flip(((#[trigger] cells[idx]).0 as int, cells[idx].1 as int), transpose),
                    grid[idx].2,
                )
            &&& forall|j: int|
                0 <= j < m.cells.len() ==> matrix_has(
                    cells,
                    grid,
                    transpose,
                    #[trigger] m.cells[j],
                    m.values[j],
                )
        }),
{
    let out = search_pieces(fresh(cells), pats, by_cell);
    let n = out.len() as int;
    let nnz = cells.len() as usize;
    let f = search_view(cells, nrows, ncols, pats, by_cell, transpose);
    let m = expanded(f, grid);
    assert(patterns_valid(pats)) by {
        assert forall|k: int| 0 <= k < pats.len() implies (#[trigger] pats[k]).0 >= 1 by {}
    }
    lemma_search_list_ok(cells, nrows as int, ncols as int, pats, by_cell);
    lemma_list_file_ok(out, nrows, ncols, nnz, transpose);
    lemma_decode_encode(f, grid);
    lemma_search_partitions(cells, pats, by_cell);
    lemma_list_cells(out, nrows, ncols, nnz, transpose, n);
    assert(out.take(n) == out);
    let lines = lines_of(out, n);
    assert forall|k: int| 0 <= k < n implies piece_cells(
        f.pats,
        (#[trigger] f.pieces[k]).0,
        f.pieces[k].1,
    ) == line_of(out[k]) by {
        lemma_piece_shape(out, k);
    }
    lemma_values_of_lines(f, out, grid, n);
    crate::roundtrip::lemma_counts(f, grid, n);
    assert(m.cells.len() == lines.len());
    assert(m.values == values_of(lines, grid));
    // a position of the matrix holds one value
    assert forall|idx: int| 0 <= idx < cells.len() implies value_at(
        grid,
        (#[trigger] cells[idx]).0 as int,
        cells[idx].1 as int,
    ) == grid[idx].2 by {
        assert(grid[idx].0 == cells[idx].0 && grid[idx].1 == cells[idx].1);
        let r = cells[idx].0 as int;
        let c = cells[idx].1 as int;
        assert(has_entry(grid, r, c));
        let k = choose|k: int| 0 <= k < grid.len() && #[trigger] grid[k].0 == r && grid[k].1 == c;
        lemma_entry_unique(grid, k, idx);
    }
    assert forall|idx: int| 0 <= idx < cells.len() implies decoded_has(
        m,
        flip(((#[trigger] cells[idx]).0 as int, cells[idx].1 as int), transpose),
        grid[idx].2,
    ) by {
        let pos = (cells[idx].0 as int, cells[idx].1 as int);
        assert(claimed_by(out, pos.0, pos.1));
        lemma_lines_members(out, n, pos);
        let j = choose|j: int| 0 <= j < lines.len() && lines[j] == pos;
        assert(m.cells[j] == flip(pos, transpose));
        assert(m.values[j] == value_at(grid, pos.0, pos.1));
    }
    assert forall|j: int| 0 <= j < m.cells.len() implies matrix_has(
        cells,
        grid,
        transpose,
        #[trigger] m.cells[j],
        m.values[j],
    ) by {
        let pos = lines[j];
        assert(lines.contains(pos));
        lemma_lines_members(out, n, pos);
        let q = choose|q: int| 0 <= q < out.len() && on_piece(#[trigger] out[q], pos.0, pos.1);
        let k = choose|k: int| 0 <= k < out[q].2.0 && #[trigger] piece_cell(out[q], k) == pos;
        assert(piece_free(cells, out[q]));
        assert(uncovered_at(cells, piece_cell(out[q], k)));
        let idx = choose|idx: int|
            0 <= idx < cells.len() && #[trigger] cells[idx].0 == pos.0 && cells[idx].1 == pos.1
                && cells[idx].2 == false;
        assert(m.cells[j] == flip(pos, transpose));
        assert(m.values[j] == value_at(grid, pos.0, pos.1));
        assert(flip((cells[idx].0 as int, cells[idx].1 as int), transpose) == m.cells[j]);
        assert(grid[idx].2 == m.values[j]);
    }
}

/// What a run on a matrix returns: the pieces that the search finds, and
/// the bytes of the file written from the inventory of those pieces.
pub open spec fn run_of(
    cells: Seq<Cell>,
    nrows: usize,
    ncols: usize,
    pats: Seq<Pattern>,
    by_cell: bool,
    grid: Seq<(usize, usize, u64)>,
    transpose: bool,
    pieces: Seq<Piece>,
    bytes: Seq<u8>,
) -> bool {
    &&& pieces == search_pieces(fresh(cells), pats, by_cell)
    &&& bytes == file_bytes(list_view(pieces, nrows, ncols, cells.len() as usize, transpose), grid)
}

/// Two runs on the same matrix with the same patterns, the same priority
/// and the same orientation return the same pieces in the same order, and
/// the same bytes.
pub proof fn lemma_runs_agree(
    cells: Seq<Cell>,
    nrows: usize,
    ncols: usize,
    pats: Seq<Pattern>,
    by_cell: bool,
    grid: Seq<(usize, usize, u64)>,
    transpose: bool,
    first: (Seq<Piece>, Seq<u8>),
    second: (Seq<Piece>, Seq<u8>),
)
    requires
        run_of(cells, nrows, ncols, pats, by_cell, grid, transpose, first.0, first.1),
        run_of(cells, nrows, ncols, pats, by_cell, grid, transpose, second.0, second.1),
    ensures
        first == second,
{
}

} // verus!
