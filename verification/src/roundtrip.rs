//! Writing a file and reading it back gives the cells and values of the
//! inventory.

use vstd::prelude::*;
use crate::errors::ErrorKind;
use crate::grid::{insert_entry, row_major_before, rows_before, stored_cells};
use crate::inventory::{
    axis_cells, inventory_cells, lemma_shape_size, piece_cells, pieces_ok, shape_cells, shapes_ok,
    single_shape, singles_last, SINGLE,
};
use crate::layout::{
    axes_of, cutoff, data_start, dims_max, encodable, file_bytes, header_back, header_front,
    i32_fields, lattice_out, lemma_i32_fields, lengths, offset_before, origin_record, origin_table,
    out_cols, out_rows, rank, repeated, reserved, resid, row_pointers, shape_record, shape_table,
    single_index, single_points, u64_fields, used_ids, uses_csr, values_before, FileView,
};
use crate::ordered::{has_key, lookup};
use crate::spfread::{
    announced_singles, cells_indexable, cells_inside, decode, header_of, i32s_at, nest_axis,
    nest_cells, origin_cells, pointer_rows, pointers_rise, record_axes, record_complete, record_len,
    shape_at, shape_with, shapes_at, single_cells, u64s_at, HeaderView, MatrixView, ShapeView,
};
use crate::utils::{axes, lemma_axes, order_of, Pattern};
use crate::wire::{i16_at, i32_at, le_i16, le_i32, le_u64, lemma_fields, u64_at};

verus! {

/// The bytes from `at` on.
pub open spec fn rest(bytes: Seq<u8>, at: int) -> Seq<u8> {
    bytes.subrange(at, bytes.len() as int)
}

/// Where the bytes from `at` on start with `a`, the bytes at `at` are `a`
/// and those behind are what follows.
pub proof fn lemma_peel(bytes: Seq<u8>, at: int, a: Seq<u8>, b: Seq<u8>)
    requires
        0 <= at <= bytes.len(),
        rest(bytes, at) == a + b,
    ensures
        at + a.len() <= bytes.len(),
        bytes.subrange(at, at + a.len()) == a,
        rest(bytes, at + a.len()) == b,
{
    assert((a + b).len() == a.len() + b.len());
    assert(rest(bytes, at).len() == bytes.len() - at);
    assert(bytes.subrange(at, at + a.len()) =~= a) by {
        assert forall|k: int| 0 <= k < a.len() implies bytes.subrange(at, at + a.len())[k]
            == a[k] by {
            assert(rest(bytes, at)[k] == (a + b)[k]);
        }
    }
    assert(rest(bytes, at + a.len()) =~= b) by {
        assert forall|k: int| 0 <= k < b.len() implies rest(bytes, at + a.len())[k] == b[k] by {
            assert(rest(bytes, at)[a.len() + k] == (a + b)[a.len() + k]);
        }
    }
}

/// A 32-bit field that the bytes hold at `at` is read back.
pub proof fn lemma_read_i32(bytes: Seq<u8>, at: int, v: i32)
    requires
        0 <= at,
        at + 4 <= bytes.len(),
        bytes.subrange(at, at + 4) == le_i32(v),
    ensures
        i32_at(bytes, at) == v,
{
    lemma_fields();
}

/// A 16-bit field that the bytes hold at `at` is read back.
pub proof fn lemma_read_i16(bytes: Seq<u8>, at: int, v: i16)
    requires
        0 <= at,
        at + 2 <= bytes.len(),
        bytes.subrange(at, at + 2) == le_i16(v),
    ensures
        i16_at(bytes, at) == v,
{
    lemma_fields();
}

/// Peels a 32-bit field off the front of the bytes from `at` on.
pub proof fn lemma_peel_i32(bytes: Seq<u8>, at: int, v: i32, b: Seq<u8>)
    requires
        0 <= at <= bytes.len(),
        rest(bytes, at) == le_i32(v) + b,
    ensures
        at + 4 <= bytes.len(),
        i32_at(bytes, at) == v,
        rest(bytes, at + 4) == b,
{
    lemma_fields();
    lemma_peel(bytes, at, le_i32(v), b);
    lemma_read_i32(bytes, at, v);
}

/// Peels a 16-bit field off the front of the bytes from `at` on.
pub proof fn lemma_peel_i16(bytes: Seq<u8>, at: int, v: i16, b: Seq<u8>)
    requires
        0 <= at <= bytes.len(),
        rest(bytes, at) == le_i16(v) + b,
    ensures
        at + 2 <= bytes.len(),
        i16_at(bytes, at) == v,
        rest(bytes, at + 2) == b,
{
    lemma_fields();
    lemma_peel(bytes, at, le_i16(v), b);
    lemma_read_i16(bytes, at, v);
}

/// Peels a list of 32-bit fields off the front of the bytes from `at` on.
pub proof fn lemma_peel_i32s(bytes: Seq<u8>, at: int, vals: Seq<i32>, b: Seq<u8>)
    requires
        0 <= at <= bytes.len(),
        rest(bytes, at) == i32_fields(vals) + b,
    ensures
        at + 4 * vals.len() <= bytes.len(),
        i32s_at(bytes, at, vals.len() as int) == vals,
        rest(bytes, at + 4 * vals.len()) == b,
    decreases vals.len(),
{
    lemma_fields();
    lemma_i32_fields(vals);
    lemma_peel(bytes, at, i32_fields(vals), b);
    if vals.len() > 0 {
        let front = vals.drop_last();
        lemma_i32_fields(front);
        assert(i32_fields(vals) == i32_fields(front) + le_i32(vals.last()));
        assert(rest(bytes, at) =~= i32_fields(front) + (le_i32(vals.last()) + b));
        lemma_peel_i32s(bytes, at, front, le_i32(vals.last()) + b);
        lemma_peel_i32(bytes, at + 4 * front.len(), vals.last(), b);
        assert(i32s_at(bytes, at, vals.len() as int) =~= vals) by {
            assert forall|k: int| 0 <= k < vals.len() implies i32s_at(
                bytes,
                at,
                vals.len() as int,
            )[k] == vals[k] by {
                if k < front.len() {
                    assert(i32s_at(bytes, at, front.len() as int)[k] == front[k]);
                }
            }
        }
    } else {
        assert(i32s_at(bytes, at, 0) =~= vals);
    }
}

/// What a reader sees of the record of a shape with the given axes.
pub open spec fn record_view(index: int, ax: Seq<Pattern>, transpose: bool) -> ShapeView {
    ShapeView {
        id: index as i16,
        dims: ax.len() as i16,
        lens: lengths(ax),
        lattice: lattice_out(ax, transpose),
    }
}

/// A record of the table of shapes is read back.
pub proof fn lemma_record_reads(
    bytes: Seq<u8>,
    at: int,
    index: int,
    ax: Seq<Pattern>,
    transpose: bool,
    b: Seq<u8>,
)
    requires
        0 <= at <= bytes.len(),
        rest(bytes, at) == shape_record(index, ax, transpose) + b,
        0 <= index <= i16::MAX,
        1 <= ax.len() <= i16::MAX,
    ensures
        shape_at(bytes, at) == Ok::<ShapeView, ErrorKind>(record_view(index, ax, transpose)),
        at + record_len(ax.len() as int) <= bytes.len(),
        rest(bytes, at + record_len(ax.len() as int)) == b,
{
    let d = ax.len() as int;
    let zeros = i32_fields(repeated(0i32, d));
    let lens = i32_fields(lengths(ax));
    let ones = i32_fields(repeated(1i32, d));
    let lat = i32_fields(lattice_out(ax, transpose));
    lemma_fields();
    lemma_i32_fields(repeated(0i32, d));
    lemma_i32_fields(lengths(ax));
    lemma_i32_fields(repeated(1i32, d));
    lemma_i32_fields(lattice_out(ax, transpose));
    let t6 = lat + b;
    let t5 = ones + t6;
    let t4 = lens + t5;
    let t3 = zeros + t4;
    let t2 = le_i16(d as i16) + t3;
    let t1 = le_i16(0i16) + t2;
    assert(rest(bytes, at) =~= le_i16(index as i16) + t1);
    lemma_peel_i16(bytes, at, index as i16, t1);
    lemma_peel_i16(bytes, at + 2, 0i16, t2);
    lemma_peel_i16(bytes, at + 4, d as i16, t3);
    lemma_peel_i32s(bytes, at + 6, repeated(0i32, d), t4);
    lemma_peel_i32s(bytes, at + 6 + 4 * d, lengths(ax), t5);
    lemma_peel_i32s(bytes, at + 6 + 8 * d, repeated(1i32, d), t6);
    lemma_peel_i32s(bytes, at + 6 + 12 * d, lattice_out(ax, transpose), b);
    assert(i16_at(bytes, at + 4) as int == d);
}

/// The records that a reader sees of the first `upto` shapes in use.
pub open spec fn table_views(f: FileView, upto: int) -> Seq<ShapeView> {
    Seq::new(upto as nat, |i: int| record_view(i, axes_of(f, used_ids(f)[i]), f.transpose))
}

/// Every shape in use has between 1 and 32767 axes.
pub open spec fn shapes_fit(f: FileView) -> bool {
    forall|i: int|
        0 <= i < used_ids(f).len() ==> 1 <= (#[trigger] axes_of(f, used_ids(f)[i])).len()
            <= i16::MAX
}

/// The table of shapes is read back, record after record.
pub proof fn lemma_table_reads(bytes: Seq<u8>, at: int, f: FileView, upto: int, b: Seq<u8>)
    requires
        0 <= at <= bytes.len(),
        0 <= upto <= used_ids(f).len() <= i16::MAX,
        shapes_fit(f),
        rest(bytes, at) == shape_table(f, upto) + b,
    ensures
        at + shape_table(f, upto).len() <= bytes.len(),
        shapes_at(bytes, at, upto) == Ok::<(Seq<ShapeView>, int), ErrorKind>(
            (table_views(f, upto), at + shape_table(f, upto).len()),
        ),
        rest(bytes, at + shape_table(f, upto).len()) == b,
    decreases upto,
{
    if upto == 0 {
        assert(shape_table(f, 0) =~= Seq::<u8>::empty());
        assert(rest(bytes, at) =~= b);
        assert(table_views(f, 0) =~= Seq::<ShapeView>::empty());
    } else {
        let before = shape_table(f, upto - 1);
        let ax = axes_of(f, used_ids(f)[upto - 1]);
        let record = shape_record(upto - 1, ax, f.transpose);
        assert(shape_table(f, upto) == before + record);
        assert(rest(bytes, at) =~= before + (record + b));
        lemma_table_reads(bytes, at, f, upto - 1, record + b);
        lemma_record_reads(bytes, at + before.len(), upto - 1, ax, f.transpose, b);
        assert(record.len() == record_len(ax.len() as int)) by {
            lemma_peel(bytes, at + before.len(), record, b);
        }
        assert(table_views(f, upto) =~= table_views(f, upto - 1).push(
            record_view(upto - 1, ax, f.transpose),
        ));
        assert(record_view(upto - 1, ax, f.transpose).dims as int == ax.len());
    }
}

/// A cell as the file holds it: row and column exchanged where the file is
/// transposed.
pub open spec fn flip(cell: (int, int), transpose: bool) -> (int, int) {
    if transpose {
        (cell.1, cell.0)
    } else {
        cell
    }
}

/// The cells as the file holds them.
pub open spec fn flipped(cells: Seq<(int, int)>, transpose: bool) -> Seq<(int, int)> {
    Seq::new(cells.len(), |k: int| flip(cells[k], transpose))
}

/// The axes of a shape as a reader takes them from its record.
pub open spec fn read_axes(ax: Seq<Pattern>, transpose: bool) -> Seq<(int, int, int)> {
    Seq::new(
        ax.len(),
        |k: int|
            (
                ax[k].0 as int,
                if transpose {
                    ax[k].2 as int
                } else {
                    ax[k].1 as int
                },
                if transpose {
                    ax[k].1 as int
                } else {
                    ax[k].2 as int
                },
            ),
    )
}

/// The record of a shape with axes of at least one cell gives its axes
/// back.
pub proof fn lemma_record_axes(index: int, ax: Seq<Pattern>, transpose: bool)
    requires
        1 <= ax.len() <= i16::MAX,
        forall|k: int| 0 <= k < ax.len() ==> (#[trigger] ax[k]).0 >= 1,
    ensures
        record_axes(record_view(index, ax, transpose)) == read_axes(ax, transpose),
        record_complete(record_view(index, ax, transpose)),
{
    let view = record_view(index, ax, transpose);
    let got = record_axes(view);
    assert(view.dims as int == ax.len());
    assert forall|k: int| 0 <= k < ax.len() implies got[k] == read_axes(ax, transpose)[k] by {
        assert(ax[k].0 >= 1);
        assert((2 * k) % 2 == 0 && (2 * k) / 2 == k) by (nonlinear_arith)
            requires
                k >= 0,
        ;
        assert((2 * k + 1) % 2 == 1 && (2 * k + 1) / 2 == k) by (nonlinear_arith)
            requires
                k >= 0,
        ;
        assert(view.lens[k] == (ax[k].0 - 1) as i32);
        assert(view.lattice[2 * k] == if transpose {
            ax[k].2
        } else {
            ax[k].1
        });
        assert(view.lattice[2 * k + 1] == if transpose {
            ax[k].1
        } else {
            ax[k].2
        });
    }
    assert(got =~= read_axes(ax, transpose));
}

/// What a reader expands from the axes of a record is what the shape
/// stands for, with rows and columns exchanged where the file is
/// transposed.
pub proof fn lemma_nest_is_shape(ax: Seq<Pattern>, row: int, col: int, transpose: bool)
    ensures
        nest_cells(
            read_axes(ax, transpose),
            flip((row, col), transpose).0,
            flip((row, col), transpose).1,
        ) == flipped(shape_cells(ax, row, col), transpose),
    decreases ax.len(), 1int, 0int,
{
    let w = read_axes(ax, transpose);
    let o = flip((row, col), transpose);
    if ax.len() == 0 {
        assert(nest_cells(w, o.0, o.1) =~= flipped(shape_cells(ax, row, col), transpose));
    } else {
        lemma_nest_axis_is(ax, row, col, transpose, ax[0].0 as int);
    }
}

/// The same for the first repetitions of the outermost axis.
pub proof fn lemma_nest_axis_is(ax: Seq<Pattern>, row: int, col: int, transpose: bool, upto: int)
    requires
        ax.len() > 0,
    ensures
        nest_axis(
            read_axes(ax, transpose),
            flip((row, col), transpose).0,
            flip((row, col), transpose).1,
            upto,
        ) == flipped(axis_cells(ax, row, col, upto), transpose),
    decreases ax.len(), 0int, upto,
{
    let w = read_axes(ax, transpose);
    let o = flip((row, col), transpose);
    if upto <= 0 {
        assert(nest_axis(w, o.0, o.1, upto) =~= flipped(axis_cells(ax, row, col, upto), transpose));
    } else {
        lemma_nest_axis_is(ax, row, col, transpose, upto - 1);
        let r2 = row + (upto - 1) * ax[0].1;
        let c2 = col + (upto - 1) * ax[0].2;
        lemma_nest_is_shape(ax.skip(1), r2, c2, transpose);
        assert(w.skip(1) =~= read_axes(ax.skip(1), transpose));
        assert(flip((r2, c2), transpose) == (
            o.0 + (upto - 1) * w[0].1,
            o.1 + (upto - 1) * w[0].2,
        ));
        assert(nest_axis(w, o.0, o.1, upto) =~= flipped(axis_cells(ax, row, col, upto), transpose));
    }
}

/// Among the records of a table, the record with an id is the one at that
/// place.
pub proof fn lemma_shape_with(f: FileView, n: int, id: int, upto: int)
    requires
        0 <= upto <= n <= i16::MAX,
        0 <= id < n,
    ensures
        shape_with(table_views(f, n), id as i16, upto) == if id < upto {
            Some(table_views(f, n)[id])
        } else {
            None::<ShapeView>
        },
    decreases upto,
{
    if upto > 0 {
        lemma_shape_with(f, n, id, upto - 1);
        assert(table_views(f, n)[upto - 1].id == (upto - 1) as i16);
    }
}

/// The points are in strict row-major order.
pub open spec fn points_sorted(points: Seq<(usize, usize)>) -> bool {
    forall|a: int, b: int|
        #![trigger points[a], points[b]]
        0 <= a < b < points.len() ==> points[a].0 < points[b].0 || (points[a].0 == points[b].0
            && points[a].1 < points[b].1)
}

/// The inventory can be written and read back: it is consistent and fits
/// the fields of the file; the cells of every piece lie inside the matrix;
/// the single points are as many as the counts of the matrix say, and all
/// pieces together have as many cells as the matrix has nonzeros; the shape
/// of the single points is the single point; and where the single points
/// are indexed by compressed rows, they stand in row-major order as the
/// file holds them.
pub open spec fn file_ok(f: FileView) -> bool {
    &&& shapes_ok(f.pats)
    &&& pieces_ok(f.pats, f.pieces)
    &&& singles_last(f.pieces)
    &&& encodable(f)
    &&& forall|k: int|
        0 <= k < f.pieces.len() ==> (#[trigger] f.pieces[k]).0.0 < f.nrows && f.pieces[k].0.1
            < f.ncols
    &&& forall|k: int|
        0 <= k < f.pieces.len() ==> cells_inside(
            piece_cells(f.pats, (#[trigger] f.pieces[k]).0, f.pieces[k].1),
            f.nrows as int,
            f.ncols as int,
        )
    &&& f.pieces.len() - cutoff(f) == resid(f)
    &&& offset_before(f, f.pieces.len() as int) == f.nnz
    &&& has_key(f.pats, SINGLE) ==> lookup(f.pats, SINGLE) == Some(single_shape())
    &&& uses_csr(f) ==> points_sorted(single_points(f))
}

/// The cells inside a matrix stay inside the transposed matrix when rows
/// and columns are exchanged, and they are indexes.
pub proof fn lemma_flipped_inside(cells: Seq<(int, int)>, nrows: int, ncols: int, transpose: bool)
    requires
        cells_inside(cells, nrows, ncols),
        nrows <= usize::MAX,
        ncols <= usize::MAX,
    ensures
        cells_inside(
            flipped(cells, transpose),
            if transpose {
                ncols
            } else {
                nrows
            },
            if transpose {
                nrows
            } else {
                ncols
            },
        ),
        cells_indexable(flipped(cells, transpose)),
{
    let out = flipped(cells, transpose);
    assert forall|k: int| 0 <= k < out.len() implies 0 <= (#[trigger] out[k]).0 <= usize::MAX && 0
        <= out[k].1 <= usize::MAX by {
        assert(0 <= cells[k].0 < nrows);
    }
    assert forall|k: int| 0 <= k < out.len() implies 0 <= (#[trigger] out[k]).0 < (if transpose {
        ncols
    } else {
        nrows
    }) && 0 <= out[k].1 < (if transpose {
        nrows
    } else {
        ncols
    }) by {
        assert(0 <= cells[k].0 < nrows);
    }
}

/// What a consistent file knows of a piece that is no single point: its
/// shape is in use, with between 1 and 32767 axes of at least one cell.
pub proof fn lemma_placed_piece(f: FileView, k: int)
    requires
        file_ok(f),
        0 <= k < cutoff(f),
    ensures
        k < f.pieces.len(),
        f.pieces[k].1 != SINGLE,
        used_ids(f).contains(f.pieces[k].1),
        0 <= rank(used_ids(f), f.pieces[k].1) < used_ids(f).len(),
        used_ids(f)[rank(used_ids(f), f.pieces[k].1)] == f.pieces[k].1,
        1 <= axes_of(f, f.pieces[k].1).len() <= i16::MAX,
        forall|m: int|
            0 <= m < axes_of(f, f.pieces[k].1).len() ==> (#[trigger] axes_of(f, f.pieces[k].1)[m]).0
                >= 1,
{
    crate::spfgen::lemma_cutoff(f.pieces, f.pieces.len() as int);
    crate::spfgen::lemma_first_ids(f.pieces, f.pieces.len() as int);
    let id = f.pieces[k].1;
    assert(used_ids(f).contains(id));
    crate::spfgen::lemma_shape_known(f.pats, id);
    lemma_axes(f.pats, id, order_of(f.pats, id));
    lemma_order_small(f, id);
}

/// The order of a shape in use is no greater than the greatest order.
pub proof fn lemma_order_small(f: FileView, id: i32)
    requires
        file_ok(f),
        used_ids(f).contains(id),
    ensures
        order_of(f.pats, id) <= i16::MAX,
{
    let ids = used_ids(f);
    let k = choose|k: int| 0 <= k < ids.len() && ids[k] == id;
    crate::spfgen::lemma_top_order(f.pats, ids, ids.len() as int, k);
}

/// Every shape in use of a consistent file has between 1 and 32767 axes.
pub proof fn lemma_shapes_fit(f: FileView)
    requires
        file_ok(f),
    ensures
        shapes_fit(f),
        used_ids(f).len() > 0 ==> cutoff(f) > 0,
{
    crate::spfgen::lemma_first_ids(f.pieces, f.pieces.len() as int);
    crate::spfgen::lemma_cutoff(f.pieces, f.pieces.len() as int);
    assert forall|i: int| 0 <= i < used_ids(f).len() implies 1 <= (#[trigger] axes_of(
        f,
        used_ids(f)[i],
    )).len() <= i16::MAX by {
        let id = used_ids(f)[i];
        let k = choose|k: int| 0 <= k < f.pieces.len() && (#[trigger] f.pieces[k]).1 == id;
        assert(!used_ids(f).contains(SINGLE));
        assert(f.pieces[k].1 != SINGLE);
        assert(has_key(f.pats, f.pieces[k].1));
        crate::spfgen::lemma_shape_known(f.pats, id);
        lemma_axes(f.pats, id, order_of(f.pats, id));
        lemma_order_small(f, id);
    }
    if used_ids(f).len() > 0 {
        let id = used_ids(f)[0];
        let k = choose|k: int| 0 <= k < f.pieces.len() && (#[trigger] f.pieces[k]).1 == id;
        assert(!used_ids(f).contains(SINGLE));
        assert(f.pieces[k].1 != SINGLE);
    }
}

/// The table of origins is read back: the cells of the pieces, piece after
/// piece.
pub proof fn lemma_origins_read(bytes: Seq<u8>, at: int, f: FileView, upto: int, b: Seq<u8>)
    requires
        0 <= at <= bytes.len(),
        0 <= upto <= cutoff(f),
        file_ok(f),
        rest(bytes, at) == origin_table(f, upto) + b,
    ensures
        at + 14 * upto <= bytes.len(),
        origin_cells(bytes, table_views(f, used_ids(f).len() as int), at, upto) == Ok::<
            Seq<(int, int)>,
            ErrorKind,
        >(flipped(inventory_cells(f.pats, f.pieces, upto), f.transpose)),
        rest(bytes, at + 14 * upto) == b,
    decreases upto,
{
    let n = used_ids(f).len() as int;
    let views = table_views(f, n);
    if upto == 0 {
        assert(origin_table(f, 0) =~= Seq::<u8>::empty());
        assert(rest(bytes, at) =~= b);
        assert(flipped(inventory_cells(f.pats, f.pieces, 0), f.transpose) =~= Seq::<
            (int, int),
        >::empty());
    } else {
        let k = upto - 1;
        let before = origin_table(f, k);
        let record = origin_record(f, k);
        assert(origin_table(f, upto) == before + record);
        assert(rest(bytes, at) =~= before + (record + b));
        lemma_origins_read(bytes, at, f, k, record + b);
        let here = at + 14 * k;
        lemma_placed_piece(f, k);
        let origin = f.pieces[k].0;
        let id = f.pieces[k].1;
        let r = rank(used_ids(f), id);
        let first = if f.transpose {
            origin.1
        } else {
            origin.0
        };
        let second = if f.transpose {
            origin.0
        } else {
            origin.1
        };
        let t3 = le_i32(offset_before(f, k) as i32) + b;
        let t2 = le_i32(second as i32) + t3;
        let t1 = le_i32(first as i32) + t2;
        assert(rest(bytes, here) =~= le_i16(r as i16) + t1);
        lemma_peel_i16(bytes, here, r as i16, t1);
        lemma_peel_i32(bytes, here + 2, first as i32, t2);
        lemma_peel_i32(bytes, here + 6, second as i32, t3);
        lemma_peel_i32(bytes, here + 10, offset_before(f, k) as i32, b);
        lemma_shape_with(f, n, r, n);
        let ax = axes_of(f, id);
        lemma_record_axes(r, ax, f.transpose);
        lemma_nest_is_shape(ax, origin.0 as int, origin.1 as int, f.transpose);
        let cells = piece_cells(f.pats, origin, id);
        lemma_flipped_inside(cells, f.nrows as int, f.ncols as int, f.transpose);
        assert(views[r] == record_view(r, ax, f.transpose));
        assert(flip((origin.0 as int, origin.1 as int), f.transpose) == (
            first as i32 as int,
            second as i32 as int,
        ));
        assert(flipped(inventory_cells(f.pats, f.pieces, upto), f.transpose) =~= flipped(
            inventory_cells(f.pats, f.pieces, k),
            f.transpose,
        ) + flipped(cells, f.transpose));
    }
}

/// The points as free cells.
pub open spec fn as_cells(points: Seq<(usize, usize)>) -> Seq<(usize, usize, bool)> {
    Seq::new(points.len(), |k: int| (points[k].0, points[k].1, false))
}

/// An entry that lies behind all others is stored last.
proof fn lemma_insert_last(entries: Seq<(usize, usize, bool)>, row: usize, col: usize)
    requires
        forall|k: int|
            0 <= k < entries.len() ==> row_major_before(
                (#[trigger] entries[k]).0 as int,
                entries[k].1 as int,
                row as int,
                col as int,
            ),
    ensures
        insert_entry(entries, row, col, false) == entries.push((row, col, false)),
    decreases entries.len(),
{
    if entries.len() > 0 {
        let tail = entries.skip(1);
        assert(row_major_before(entries[0].0 as int, entries[0].1 as int, row as int, col as int));
        assert forall|k: int| 0 <= k < tail.len() implies row_major_before(
            (#[trigger] tail[k]).0 as int,
            tail[k].1 as int,
            row as int,
            col as int,
        ) by {
            assert(tail[k] == entries[k + 1]);
        }
        lemma_insert_last(tail, row, col);
        assert(insert_entry(entries, row, col, false) =~= entries.push((row, col, false)));
    } else {
        assert(insert_entry(entries, row, col, false) =~= entries.push((row, col, false)));
    }
}

/// Points in row-major order are stored in their order.
pub proof fn lemma_stored_sorted(points: Seq<(usize, usize)>)
    requires
        points_sorted(points),
    ensures
        stored_cells(points) == as_cells(points),
    decreases points.len(),
{
    if points.len() > 0 {
        let front = points.drop_last();
        assert(points_sorted(front)) by {
            assert forall|a: int, b: int|
                #![trigger front[a], front[b]]
                0 <= a < b < front.len() implies front[a].0 < front[b].0 || (front[a].0 == front[b].0
                && front[a].1 < front[b].1) by {
                assert(points[a].0 < points[b].0 || (points[a].0 == points[b].0 && points[a].1
                    < points[b].1));
            }
        }
        lemma_stored_sorted(front);
        let last = points.last();
        let prev = as_cells(front);
        assert forall|k: int| 0 <= k < prev.len() implies row_major_before(
            (#[trigger] prev[k]).0 as int,
            prev[k].1 as int,
            last.0 as int,
            last.1 as int,
        ) by {
            assert(points[k].0 < points[points.len() - 1].0 || (points[k].0 == points[points.len()
                - 1].0 && points[k].1 < points[points.len() - 1].1));
        }
        lemma_insert_last(prev, last.0, last.1);
        assert(stored_cells(points) =~= as_cells(points));
    } else {
        assert(stored_cells(points) =~= as_cells(points));
    }
}

/// The rows of the entries do not fall.
pub open spec fn rows_rise(sorted: Seq<(usize, usize, bool)>) -> bool {
    forall|a: int, b: int|
        #![trigger sorted[a], sorted[b]]
        0 <= a <= b < sorted.len() ==> sorted[a].0 <= sorted[b].0
}

/// Among entries whose rows do not fall, those in rows before `r` come
/// first: they are the first `rows_before` entries.
proof fn lemma_rows_before(sorted: Seq<(usize, usize, bool)>, r: int, upto: int)
    requires
        rows_rise(sorted),
        0 <= upto <= sorted.len(),
    ensures
        0 <= rows_before(sorted, r, upto) <= upto,
        forall|k: int| 0 <= k < rows_before(sorted, r, upto) ==> (#[trigger] sorted[k]).0 < r,
        forall|k: int| rows_before(sorted, r, upto) <= k < upto ==> (#[trigger] sorted[k]).0 >= r,
    decreases upto,
{
    if upto > 0 {
        lemma_rows_before(sorted, r, upto - 1);
        let c = rows_before(sorted, r, upto - 1);
        if sorted[upto - 1].0 < r {
            assert(c == upto - 1) by {
                if c < upto - 1 {
                    assert(sorted[c].0 >= r);
                    assert(sorted[c].0 <= sorted[upto - 1].0);
                }
            }
        }
    }
}

/// The counts of the rows before do not fall from row to row.
proof fn lemma_rows_before_rise(sorted: Seq<(usize, usize, bool)>, r: int, upto: int)
    requires
        0 <= upto,
    ensures
        rows_before(sorted, r, upto) <= rows_before(sorted, r + 1, upto),
        0 <= rows_before(sorted, r, upto) <= upto,
    decreases upto,
{
    if upto > 0 {
        lemma_rows_before_rise(sorted, r, upto - 1);
    }
}

/// No entry lies in a row before the first, and all entries lie before the
/// row behind the last.
proof fn lemma_rows_before_ends(sorted: Seq<(usize, usize, bool)>, nrows: int, upto: int)
    requires
        0 <= upto <= sorted.len(),
        forall|k: int| 0 <= k < sorted.len() ==> (#[trigger] sorted[k]).0 < nrows,
    ensures
        rows_before(sorted, 0, upto) == 0,
        rows_before(sorted, nrows, upto) == upto,
    decreases upto,
{
    if upto > 0 {
        lemma_rows_before_ends(sorted, nrows, upto - 1);
    }
}

/// The row pointers of entries whose rows do not fall are read back as the
/// rows of the entries.
proof fn lemma_pointers_read(
    bytes: Seq<u8>,
    at: int,
    sorted: Seq<(usize, usize, bool)>,
    nrows: int,
    upto: int,
)
    requires
        0 <= upto <= nrows,
        rows_rise(sorted),
        sorted.len() <= i32::MAX,
        forall|k: int| 0 <= k < sorted.len() ==> (#[trigger] sorted[k]).0 < nrows,
        i32s_at(bytes, at, nrows + 1) == row_pointers(sorted, nrows),
    ensures
        pointers_rise(bytes, at, upto),
        pointer_rows(bytes, at, upto) == Seq::new(
            rows_before(sorted, upto, sorted.len() as int) as nat,
            |k: int| sorted[k].0 as int,
        ),
    decreases upto,
{
    let n = sorted.len() as int;
    assert forall|r: int| 0 <= r <= nrows implies #[trigger] i32_at(bytes, at + 4 * r)
        == rows_before(sorted, r, n) by {
        lemma_rows_before_rise(sorted, r, n);
        let v = rows_before(sorted, r, n);
        assert(0 <= v <= n);
        assert(row_pointers(sorted, nrows)[r] == v as i32);
        assert(i32s_at(bytes, at, nrows + 1)[r] == i32_at(bytes, at + 4 * r));
        assert(i32s_at(bytes, at, nrows + 1)[r] == row_pointers(sorted, nrows)[r]);
    }
    if upto == 0 {
        lemma_rows_before_ends(sorted, nrows, n);
        assert(pointer_rows(bytes, at, 0) =~= Seq::new(
            rows_before(sorted, 0, n) as nat,
            |k: int| sorted[k].0 as int,
        ));
    } else {
        lemma_pointers_read(bytes, at, sorted, nrows, upto - 1);
        lemma_rows_before(sorted, upto - 1, n);
        lemma_rows_before(sorted, upto, n);
        lemma_rows_before_rise(sorted, upto - 1, n);
        let low = rows_before(sorted, upto - 1, n);
        let high = rows_before(sorted, upto, n);
        assert(i32_at(bytes, at + 4 * (upto - 1)) == low);
        assert(i32_at(bytes, at + 4 * upto) == high);
        assert(i32_at(bytes, at + 4 * ((upto - 1) + 1)) == high);
        assert forall|r: int| 0 <= r < upto implies i32_at(bytes, at + 4 * r) <= #[trigger] i32_at(
            bytes,
            at + 4 * (r + 1),
        ) by {
            lemma_rows_before_rise(sorted, r, n);
            assert(i32_at(bytes, at + 4 * r) == rows_before(sorted, r, n));
            assert(i32_at(bytes, at + 4 * (r + 1)) == rows_before(sorted, r + 1, n));
        }
        let want = Seq::new(high as nat, |k: int| sorted[k].0 as int);
        let got = pointer_rows(bytes, at, upto);
        assert(got.len() == want.len());
        assert forall|k: int| 0 <= k < want.len() implies got[k] == want[k] by {
            if k >= low {
                assert(sorted[k].0 >= upto - 1);
                assert(sorted[k].0 < upto);
            }
        }
        assert(got =~= want);
    }
}

/// The points as cells with coordinates of either sign.
pub open spec fn point_cells(points: Seq<(usize, usize)>) -> Seq<(int, int)> {
    Seq::new(points.len(), |k: int| (points[k].0 as int, points[k].1 as int))
}

/// Peels one byte off the front of the bytes from `at` on.
pub proof fn lemma_peel_byte(bytes: Seq<u8>, at: int, v: u8, b: Seq<u8>)
    requires
        0 <= at <= bytes.len(),
        rest(bytes, at) == seq![v] + b,
    ensures
        at + 1 <= bytes.len(),
        bytes[at] == v,
        rest(bytes, at + 1) == b,
{
    lemma_peel(bytes, at, seq![v], b);
    assert(bytes.subrange(at, at + 1)[0] == v);
}

/// The index of the single points is read back.
pub proof fn lemma_singles_read(bytes: Seq<u8>, at: int, f: FileView, h: HeaderView, b: Seq<u8>)
    requires
        0 <= at <= bytes.len(),
        file_ok(f),
        rest(bytes, at) == single_index(f) + b,
        h.nnz == f.nnz,
        h.inc_nnz == f.inc_nnz,
        h.nrows == out_rows(f),
    ensures
        at + single_index(f).len() <= bytes.len(),
        single_cells(bytes, h, at) == Ok::<Seq<(int, int)>, ErrorKind>(
            point_cells(single_points(f)),
        ),
        rest(bytes, at + single_index(f).len()) == b,
{
    let points = single_points(f);
    let n = points.len() as int;
    crate::spfgen::lemma_cutoff(f.pieces, f.pieces.len() as int);
    assert(n == resid(f));
    assert(announced_singles(h) == n);
    lemma_peel(bytes, at, single_index(f), b);
    assert forall|k: int| 0 <= k < n implies (#[trigger] points[k]).0 <= i32::MAX && points[k].1
        <= i32::MAX && points[k].0 < out_rows(f) by {
        assert(f.pieces[cutoff(f) + k].0.0 < f.nrows);
    }
    if uses_csr(f) {
        let sorted = stored_cells(points);
        lemma_stored_sorted(points);
        let ptrs = row_pointers(sorted, out_rows(f) as int);
        let cols = Seq::new(sorted.len(), |k: int| sorted[k].1 as i32);
        lemma_i32_fields(ptrs);
        lemma_i32_fields(cols);
        let t2 = i32_fields(cols) + b;
        let t1 = i32_fields(ptrs) + t2;
        assert(rest(bytes, at) =~= seq![0u8] + t1);
        lemma_peel_byte(bytes, at, 0u8, t1);
        lemma_peel_i32s(bytes, at + 1, ptrs, t2);
        lemma_peel_i32s(bytes, at + 1 + 4 * (out_rows(f) + 1), cols, b);
        assert(rows_rise(sorted)) by {
            assert forall|x: int, y: int|
                #![trigger sorted[x], sorted[y]]
                0 <= x <= y < sorted.len() implies sorted[x].0 <= sorted[y].0 by {
                if x < y {
                    assert(points[x].0 < points[y].0 || (points[x].0 == points[y].0 && points[x].1
                        < points[y].1));
                }
            }
        }
        assert forall|k: int| 0 <= k < sorted.len() implies (#[trigger] sorted[k]).0 < out_rows(
            f,
        ) by {
            assert(points[k].0 < out_rows(f));
        }
        lemma_pointers_read(bytes, at + 1, sorted, out_rows(f) as int, out_rows(f) as int);
        lemma_rows_before_ends(sorted, out_rows(f) as int, n);
        let rows = pointer_rows(bytes, at + 1, h.nrows as int);
        let cols_at = at + 1 + 4 * (h.nrows + 1);
        let got = Seq::new(n as nat, |k: int| (rows[k], i32_at(bytes, cols_at + 4 * k) as int));
        assert forall|k: int| 0 <= k < n implies got[k] == point_cells(points)[k] by {
            assert(i32s_at(bytes, cols_at, n)[k] == cols[k]);
            assert(sorted[k] == (points[k].0, points[k].1, false));
        }
        assert(got =~= point_cells(points));
        assert(single_index(f).len() == 1 + 4 * (out_rows(f) + 1) + 4 * n);
    } else {
        let first = Seq::new(points.len(), |k: int| points[k].0 as i32);
        let second = Seq::new(points.len(), |k: int| points[k].1 as i32);
        lemma_i32_fields(first);
        lemma_i32_fields(second);
        let t2 = i32_fields(second) + b;
        let t1 = i32_fields(first) + t2;
        assert(rest(bytes, at) =~= seq![2u8] + t1);
        lemma_peel_byte(bytes, at, 2u8, t1);
        lemma_peel_i32s(bytes, at + 1, first, t2);
        lemma_peel_i32s(bytes, at + 1 + 4 * n, second, b);
        let got = Seq::new(
            n as nat,
            |k: int|
                (
                    i32_at(bytes, at + 1 + 4 * k) as int,
                    i32_at(bytes, at + 1 + 4 * n + 4 * k) as int,
                ),
        );
        assert forall|k: int| 0 <= k < n implies got[k] == point_cells(points)[k] by {
            assert(i32s_at(bytes, at + 1, n)[k] == first[k]);
            assert(i32s_at(bytes, at + 1 + 4 * n, n)[k] == second[k]);
        }
        assert(got =~= point_cells(points));
        assert(single_index(f).len() == 1 + 8 * n);
    }
}

/// A list of 64-bit fields is eight bytes for each.
pub proof fn lemma_u64_fields(vals: Seq<u64>)
    ensures
        u64_fields(vals).len() == 8 * vals.len(),
    decreases vals.len(),
{
    lemma_fields();
    if vals.len() > 0 {
        lemma_u64_fields(vals.drop_last());
    }
}

/// A list of 64-bit fields that the bytes end with is read back.
pub proof fn lemma_read_u64s(bytes: Seq<u8>, at: int, vals: Seq<u64>, b: Seq<u8>)
    requires
        0 <= at <= bytes.len(),
        rest(bytes, at) == u64_fields(vals) + b,
    ensures
        at + 8 * vals.len() <= bytes.len(),
        u64s_at(bytes, at, vals.len() as int) == vals,
    decreases vals.len(),
{
    lemma_fields();
    lemma_u64_fields(vals);
    lemma_peel(bytes, at, u64_fields(vals), b);
    if vals.len() > 0 {
        let front = vals.drop_last();
        lemma_u64_fields(front);
        assert(u64_fields(vals) == u64_fields(front) + le_u64(vals.last()));
        assert(rest(bytes, at) =~= u64_fields(front) + (le_u64(vals.last()) + b));
        lemma_read_u64s(bytes, at, front, le_u64(vals.last()) + b);
        lemma_peel(bytes, at, u64_fields(front), le_u64(vals.last()) + b);
        lemma_peel(bytes, at + 8 * front.len(), le_u64(vals.last()), b);
        assert(u64_at(bytes, at + 8 * front.len()) == vals.last());
        assert(u64s_at(bytes, at, vals.len() as int) =~= vals) by {
            assert forall|k: int| 0 <= k < vals.len() implies u64s_at(
                bytes,
                at,
                vals.len() as int,
            )[k] == vals[k] by {
                if k < front.len() {
                    assert(u64s_at(bytes, at, front.len() as int)[k] == front[k]);
                }
            }
        }
    } else {
        assert(u64s_at(bytes, at, 0) =~= vals);
    }
}

/// The tables of a consistent file have the sizes of their records, and
/// the cells and the values of the first pieces are as many as their shapes
/// say.
pub proof fn lemma_counts(f: FileView, grid: Seq<(usize, usize, u64)>, upto: int)
    requires
        file_ok(f),
        0 <= upto <= f.pieces.len(),
    ensures
        origin_table(f, upto).len() == 14 * upto,
        inventory_cells(f.pats, f.pieces, upto).len() == offset_before(f, upto),
        values_before(f, grid, upto).len() == offset_before(f, upto),
        upto <= offset_before(f, upto),
    decreases upto,
{
    lemma_fields();
    if upto > 0 {
        lemma_counts(f, grid, upto - 1);
        let origin = f.pieces[upto - 1].0;
        let id = f.pieces[upto - 1].1;
        assert(has_key(f.pats, id));
        crate::spfgen::lemma_shape_known(f.pats, id);
        lemma_axes(f.pats, id, order_of(f.pats, id));
        lemma_shape_size(axes_of(f, id), origin.0 as int, origin.1 as int);
    } else {
        assert(origin_table(f, 0) =~= Seq::<u8>::empty());
    }
}

/// A piece behind the cutoff is a single point: its only cell is its
/// origin.
pub proof fn lemma_single_piece(f: FileView, k: int)
    requires
        file_ok(f),
        cutoff(f) <= k < f.pieces.len(),
    ensures
        f.pieces[k].1 == SINGLE,
        piece_cells(f.pats, f.pieces[k].0, f.pieces[k].1) == seq![
            (f.pieces[k].0.0 as int, f.pieces[k].0.1 as int),
        ],
{
    crate::spfgen::lemma_cutoff(f.pieces, f.pieces.len() as int);
    assert(has_key(f.pats, f.pieces[k].1));
    let ax = axes_of(f, SINGLE);
    assert(order_of(f.pats, SINGLE) == 1);
    assert(axes(f.pats, crate::utils::sub_id(single_shape()), 0) =~= Seq::<Pattern>::empty());
    assert(ax =~= seq![(1i32, 0i32, 0i32)]);
    let row = f.pieces[k].0.0 as int;
    let col = f.pieces[k].0.1 as int;
    assert(ax.skip(1) =~= Seq::<Pattern>::empty());
    assert(axis_cells(ax, row, col, 0) =~= Seq::<(int, int)>::empty());
    assert(shape_cells(ax.skip(1), row + 0 * 0, col + 0 * 0) == seq![(row, col)]);
    assert(axis_cells(ax, row, col, 1) =~= seq![(row, col)]);
}

/// The cells of all pieces are those of the pieces before the cutoff and
/// behind them the single points.
pub proof fn lemma_cells_split(f: FileView, upto: int)
    requires
        file_ok(f),
        cutoff(f) <= upto <= f.pieces.len(),
    ensures
        flipped(inventory_cells(f.pats, f.pieces, upto), f.transpose) == flipped(
            inventory_cells(f.pats, f.pieces, cutoff(f)),
            f.transpose,
        ) + point_cells(single_points(f)).take(upto - cutoff(f)),
    decreases upto,
{
    crate::spfgen::lemma_cutoff(f.pieces, f.pieces.len() as int);
    let cut = cutoff(f);
    let left = flipped(inventory_cells(f.pats, f.pieces, cut), f.transpose);
    let points = point_cells(single_points(f));
    if upto == cut {
        assert(points.take(0) =~= Seq::<(int, int)>::empty());
        assert(left + points.take(0) =~= left);
    } else {
        lemma_cells_split(f, upto - 1);
        lemma_single_piece(f, upto - 1);
        let cell = (f.pieces[upto - 1].0.0 as int, f.pieces[upto - 1].0.1 as int);
        assert(points[upto - 1 - cut] == flip(cell, f.transpose));
        assert(points.take(upto - cut) =~= points.take(upto - 1 - cut).push(flip(cell, f.transpose)));
        assert(flipped(inventory_cells(f.pats, f.pieces, upto), f.transpose) =~= flipped(
            inventory_cells(f.pats, f.pieces, upto - 1),
            f.transpose,
        ).push(flip(cell, f.transpose)));
        assert(flipped(inventory_cells(f.pats, f.pieces, upto), f.transpose) =~= left
            + points.take(upto - cut));
    }
}

/// The cells of the first pieces lie inside the matrix as the file holds
/// it.
pub proof fn lemma_cells_inside(f: FileView, upto: int)
    requires
        file_ok(f),
        0 <= upto <= f.pieces.len(),
    ensures
        cells_inside(
            flipped(inventory_cells(f.pats, f.pieces, upto), f.transpose),
            out_rows(f) as int,
            out_cols(f) as int,
        ),
    decreases upto,
{
    let all = flipped(inventory_cells(f.pats, f.pieces, upto), f.transpose);
    if upto > 0 {
        lemma_cells_inside(f, upto - 1);
        let before = flipped(inventory_cells(f.pats, f.pieces, upto - 1), f.transpose);
        let cells = piece_cells(f.pats, f.pieces[upto - 1].0, f.pieces[upto - 1].1);
        lemma_flipped_inside(cells, f.nrows as int, f.ncols as int, f.transpose);
        let block = flipped(cells, f.transpose);
        assert(all =~= before + block);
        assert forall|k: int| 0 <= k < all.len() implies 0 <= (#[trigger] all[k]).0 < out_rows(f)
            && 0 <= all[k].1 < out_cols(f) by {
            if k < before.len() {
                assert(all[k] == before[k]);
            } else {
                assert(all[k] == block[k - before.len()]);
            }
        }
    }
}

/// What a file decodes to: the matrix as the file holds it, the cells of
/// all pieces, piece after piece, and their values.
pub open spec fn expanded(f: FileView, grid: Seq<(usize, usize, u64)>) -> MatrixView {
    MatrixView {
        nrows: out_rows(f) as int,
        ncols: out_cols(f) as int,
        cells: flipped(
            inventory_cells(f.pats, f.pieces, f.pieces.len() as int),
            f.transpose,
        ),
        values: values_before(f, grid, f.pieces.len() as int),
    }
}

/// What stands in a file behind the reserved words.
pub open spec fn tables_and_values(f: FileView, grid: Seq<(usize, usize, u64)>) -> Seq<u8> {
    shape_table(f, used_ids(f).len() as int) + (le_i32(cutoff(f) as i32) + (origin_table(
        f,
        cutoff(f),
    ) + (single_index(f) + u64_fields(values_before(f, grid, f.pieces.len() as int)))))
}

/// Seven parts and a tail, joined from the left, are the parts joined from
/// the right.
proof fn lemma_regroup7(
    x1: Seq<u8>,
    x2: Seq<u8>,
    x3: Seq<u8>,
    x4: Seq<u8>,
    x5: Seq<u8>,
    x6: Seq<u8>,
    x7: Seq<u8>,
    tail: Seq<u8>,
)
    ensures
        (x1 + x2 + x3 + x4 + x5 + x6 + x7) + tail == x1 + (x2 + (x3 + (x4 + (x5 + (x6 + (x7
            + tail)))))),
{
    assert((x1 + x2 + x3 + x4 + x5 + x6 + x7) + tail =~= x1 + (x2 + (x3 + (x4 + (x5 + (x6 + (x7
        + tail)))))));
}

/// Six parts joined from the left are the parts joined from the right.
proof fn lemma_regroup6(
    x1: Seq<u8>,
    x2: Seq<u8>,
    x3: Seq<u8>,
    x4: Seq<u8>,
    x5: Seq<u8>,
    tail: Seq<u8>,
)
    ensures
        (x1 + x2 + x3 + x4 + x5) + tail == x1 + (x2 + (x3 + (x4 + (x5 + tail)))),
{
    assert((x1 + x2 + x3 + x4 + x5) + tail =~= x1 + (x2 + (x3 + (x4 + (x5 + tail)))));
}

/// The bytes of a file, joined from the right.
proof fn lemma_file_regrouped(f: FileView, grid: Seq<(usize, usize, u64)>)
    ensures
        file_bytes(f, grid) == le_i32(f.nnz as i32) + (le_i32(f.inc_nnz as i32) + (le_i32(
            out_rows(f) as i32,
        ) + (le_i32(out_cols(f) as i32) + (le_i16(2i16) + (le_i32(used_ids(f).len() as i32)
            + (le_i32(0i32) + (le_i32(data_start(f) as i32) + (le_i16(dims_max(f) as i16)
            + (i32_fields(repeated(0i32, dims_max(f))) + tables_and_values(f, grid)))))))))),
{
    let vals = u64_fields(values_before(f, grid, f.pieces.len() as int));
    let tv = tables_and_values(f, grid);
    let zeros = i32_fields(repeated(0i32, dims_max(f)));
    let table = shape_table(f, used_ids(f).len() as int);
    let count = le_i32(cutoff(f) as i32);
    let origins = origin_table(f, cutoff(f));
    let single = single_index(f);
    let ptr = le_i32(data_start(f) as i32);
    let dm = le_i16(dims_max(f) as i16);
    // what stands behind the pointer
    assert(reserved(f) == dm + zeros);
    assert(header_back(f) + vals =~= dm + (zeros + tv)) by {
        lemma_regroup6(dm + zeros, table, count, origins, single, vals);
        assert((dm + zeros) + (table + (count + (origins + (single + vals)))) =~= dm + (zeros
            + tv));
    }
    let back = dm + (zeros + tv);
    assert(file_bytes(f, grid) =~= header_front(f) + (ptr + back)) by {
        assert(header_front(f) + ptr + header_back(f) + vals =~= header_front(f) + (ptr + (
            header_back(f) + vals)));
    }
    lemma_regroup7(
        le_i32(f.nnz as i32),
        le_i32(f.inc_nnz as i32),
        le_i32(out_rows(f) as i32),
        le_i32(out_cols(f) as i32),
        le_i16(2i16),
        le_i32(used_ids(f).len() as i32),
        le_i32(0i32),
        ptr + back,
    );
}

/// The header of a file is read back, and behind the reserved words stand
/// the tables and the values.
proof fn lemma_header_reads(f: FileView, grid: Seq<(usize, usize, u64)>)
    requires
        f.nnz <= i32::MAX,
        f.inc_nnz <= f.nnz,
        f.nrows <= i32::MAX,
        f.ncols <= i32::MAX,
        used_ids(f).len() <= i16::MAX,
        0 <= dims_max(f) <= i16::MAX,
        data_start(f) <= i32::MAX,
    ensures
        ({
            let bytes = file_bytes(f, grid);
            let h = header_of(bytes);
            &&& bytes.len() >= 32 + 4 * dims_max(f)
            &&& i16_at(bytes, 16) == 2
            &&& h.nnz == f.nnz
            &&& h.inc_nnz == f.inc_nnz
            &&& h.nrows == out_rows(f)
            &&& h.ncols == out_cols(f)
            &&& h.num_shapes == used_ids(f).len()
            &&& h.data_ptr == data_start(f)
            &&& h.max_dims == dims_max(f)
            &&& rest(bytes, 32 + 4 * dims_max(f)) == tables_and_values(f, grid)
        }),
{
    let bytes = file_bytes(f, grid);
    let dm = dims_max(f);
    lemma_fields();
    lemma_i32_fields(repeated(0i32, dm));
    let tv = tables_and_values(f, grid);
    let zeros = i32_fields(repeated(0i32, dm));
    let t9 = zeros + tv;
    let t8 = le_i16(dm as i16) + t9;
    let t7 = le_i32(data_start(f) as i32) + t8;
    let t6 = le_i32(0i32) + t7;
    let t5 = le_i32(used_ids(f).len() as i32) + t6;
    let t4 = le_i16(2i16) + t5;
    let t3 = le_i32(out_cols(f) as i32) + t4;
    let t2 = le_i32(out_rows(f) as i32) + t3;
    let t1 = le_i32(f.inc_nnz as i32) + t2;
    lemma_file_regrouped(f, grid);
    assert(rest(bytes, 0) =~= bytes);
    lemma_peel_i32(bytes, 0, f.nnz as i32, t1);
    lemma_peel_i32(bytes, 4, f.inc_nnz as i32, t2);
    lemma_peel_i32(bytes, 8, out_rows(f) as i32, t3);
    lemma_peel_i32(bytes, 12, out_cols(f) as i32, t4);
    lemma_peel_i16(bytes, 16, 2i16, t5);
    lemma_peel_i32(bytes, 18, used_ids(f).len() as i32, t6);
    lemma_peel_i32(bytes, 22, 0i32, t7);
    lemma_peel_i32(bytes, 26, data_start(f) as i32, t8);
    lemma_peel_i16(bytes, 30, dm as i16, t9);
    lemma_peel_i32s(bytes, 32, repeated(0i32, dm), tv);
}

/// Writing an inventory and reading the file back gives the expansion of the
/// inventory: the cells of all pieces in the order of the file, with rows
/// and columns exchanged where the file is transposed, and the values that
/// the writer found for them.
pub proof fn lemma_decode_encode(f: FileView, grid: Seq<(usize, usize, u64)>)
    requires
        file_ok(f),
    ensures
        decode(file_bytes(f, grid)) == Ok::<MatrixView, ErrorKind>(expanded(f, grid)),
{
    let bytes = file_bytes(f, grid);
    let h = header_of(bytes);
    let n = used_ids(f).len() as int;
    let cut = cutoff(f);
    let dm = dims_max(f);
    let values = values_before(f, grid, f.pieces.len() as int);
    let vals = u64_fields(values);
    lemma_fields();
    crate::spfgen::lemma_top_floor(f.pats, used_ids(f), used_ids(f).len() as int);
    lemma_header_reads(f, grid);
    lemma_file_len(f, grid);
    lemma_shapes_fit(f);
    crate::spfgen::lemma_cutoff(f.pieces, f.pieces.len() as int);
    lemma_counts(f, grid, f.pieces.len() as int);
    lemma_counts(f, grid, cut);
    // the table of shapes
    let shapes_from = 32 + 4 * dm;
    let t3 = single_index(f) + vals;
    let t2 = origin_table(f, cut) + t3;
    let t1 = le_i32(cut as i32) + t2;
    lemma_table_reads(bytes, shapes_from, f, n, t1);
    let origins_at = shapes_from + shape_table(f, n).len();
    // the table of origins
    lemma_peel_i32(bytes, origins_at, cut as i32, t2);
    assert(i32_at(bytes, origins_at) == cut) by {
        assert(data_start(f) <= i32::MAX);
        assert(origin_table(f, cut).len() == 14 * cut);
        lemma_back_len(f);
    }
    lemma_origins_read(bytes, origins_at + 4, f, cut, t3);
    let placed = flipped(inventory_cells(f.pats, f.pieces, cut), f.transpose);
    // the single points
    let singles_at = origins_at + 4 + 14 * cut;
    lemma_singles_read(bytes, singles_at, f, h, vals);
    let singles = point_cells(single_points(f));
    // the values
    let values_at = singles_at + single_index(f).len();
    assert(values_at == data_start(f)) by {
        lemma_back_len(f);
    }
    lemma_u64_fields(values);
    assert(rest(bytes, values_at) =~= vals + Seq::<u8>::empty());
    lemma_read_u64s(bytes, values_at, values, Seq::<u8>::empty());
    // the cells
    lemma_cells_split(f, f.pieces.len() as int);
    assert(singles.take(f.pieces.len() - cut) =~= singles);
    lemma_cells_inside(f, f.pieces.len() as int);
    let all = flipped(inventory_cells(f.pats, f.pieces, f.pieces.len() as int), f.transpose);
    assert(placed + singles == all);
    assert(all.len() == f.nnz);
    assert(h.nnz as int == f.nnz);
    assert(values.len() == f.nnz);
}

/// The length of what stands behind the pointer to the values.
proof fn lemma_back_len(f: FileView)
    requires
        file_ok(f),
    ensures
        header_back(f).len() == 2 + 4 * dims_max(f) + shape_table(
            f,
            used_ids(f).len() as int,
        ).len() + 4 + origin_table(f, cutoff(f)).len() + single_index(f).len(),
        14 * cutoff(f) <= data_start(f),
{
    lemma_fields();
    crate::spfgen::lemma_top_floor(f.pats, used_ids(f), used_ids(f).len() as int);
    crate::spfgen::lemma_cutoff(f.pieces, f.pieces.len() as int);
    lemma_i32_fields(repeated(0i32, dims_max(f)));
    let grid = Seq::<(usize, usize, u64)>::empty();
    lemma_counts(f, grid, cutoff(f));
}

/// A file is as long as its header and tables, and eight bytes for each
/// value.
proof fn lemma_file_len(f: FileView, grid: Seq<(usize, usize, u64)>)
    requires
        file_ok(f),
    ensures
        file_bytes(f, grid).len() == data_start(f) + 8 * f.nnz,
{
    lemma_fields();
    lemma_counts(f, grid, f.pieces.len() as int);
    lemma_u64_fields(values_before(f, grid, f.pieces.len() as int));
    assert(header_front(f).len() == 26);
}

} // verus!
