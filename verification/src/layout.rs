//! The binary layout of a file, as a function from an inventory to bytes.
//!
//! All fields are little-endian. A file is a header of 26 bytes, the
//! pointer to the values, the reserved words, the table of shapes, the
//! table of origins, the index of the single points and the values.

use vstd::prelude::*;
use crate::grid::{has_entry, rows_before, stored_cells, value_at};
use crate::inventory::{piece_cells, shape_size, SINGLE};
use crate::utils::{axes, order_of, MetaPattern, MetaPatternPiece, Pattern};
use crate::wire::{le_i16, le_i32, le_u64};

verus! {

/// What a file is written from.
pub struct FileView {
    pub nrows: usize,
    pub ncols: usize,
    pub nnz: usize,
    pub inc_nnz: usize,
    pub pats: Seq<(i32, MetaPattern)>,
    pub pieces: Seq<(MetaPatternPiece, i32)>,
    pub transpose: bool,
}

/// The 32-bit fields, one after the other.
pub open spec fn i32_fields(vals: Seq<i32>) -> Seq<u8>
    decreases vals.len(),
{
    if vals.len() == 0 {
        Seq::empty()
    } else {
        i32_fields(vals.drop_last()) + le_i32(vals.last())
    }
}

/// The 64-bit fields, one after the other.
pub open spec fn u64_fields(vals: Seq<u64>) -> Seq<u8>
    decreases vals.len(),
{
    if vals.len() == 0 {
        Seq::empty()
    } else {
        u64_fields(vals.drop_last()) + le_u64(vals.last())
    }
}

/// The ids of the shapes in use among the first `upto` pieces, each once,
/// in the order in which they first appear; the single points do not count.
pub open spec fn first_ids(pieces: Seq<(MetaPatternPiece, i32)>, upto: int) -> Seq<i32>
    decreases upto,
{
    if upto <= 0 {
        Seq::empty()
    } else {
        let before = first_ids(pieces, upto - 1);
        let id = pieces[upto - 1].1;
        if id == SINGLE || before.contains(id) {
            before
        } else {
            before.push(id)
        }
    }
}

/// The ids of the shapes in use.
pub open spec fn used_ids(f: FileView) -> Seq<i32> {
    first_ids(f.pieces, f.pieces.len() as int)
}

/// The place of an id among the ids in use: the id that the file gives to
/// the shape.
pub open spec fn rank(ids: Seq<i32>, id: i32) -> int {
    choose|k: int| 0 <= k < ids.len() && ids[k] == id
}

/// The number of pieces among the first `upto` that are no single points.
pub open spec fn placed_count(pieces: Seq<(MetaPatternPiece, i32)>, upto: int) -> int
    decreases upto,
{
    if upto <= 0 {
        0
    } else {
        placed_count(pieces, upto - 1) + if pieces[upto - 1].1 != SINGLE {
            1int
        } else {
            0int
        }
    }
}

/// The number of pieces that are no single points.
pub open spec fn cutoff(f: FileView) -> int {
    placed_count(f.pieces, f.pieces.len() as int)
}

/// The greatest order among the first `upto` of the shapes `ids`, 0 where
/// there is none.
pub open spec fn top_order(pats: Seq<(i32, MetaPattern)>, ids: Seq<i32>, upto: int) -> int
    decreases upto,
{
    if upto <= 0 {
        0
    } else if order_of(pats, ids[upto - 1]) > top_order(pats, ids, upto - 1) {
        order_of(pats, ids[upto - 1])
    } else {
        top_order(pats, ids, upto - 1)
    }
}

/// The greatest order that the file announces: that of the shapes in use,
/// which are the shapes that the file holds; 0 where all pieces are single
/// points.
pub open spec fn dims_max(f: FileView) -> int {
    top_order(f.pats, used_ids(f), used_ids(f).len() as int)
}

/// The number of single points according to the counts of the matrix.
pub open spec fn resid(f: FileView) -> int {
    f.nnz - f.inc_nnz
}

/// The rows that the file announces.
pub open spec fn out_rows(f: FileView) -> usize {
    if f.transpose {
        f.ncols
    } else {
        f.nrows
    }
}

/// The columns that the file announces.
pub open spec fn out_cols(f: FileView) -> usize {
    if f.transpose {
        f.nrows
    } else {
        f.ncols
    }
}

/// The first 26 bytes: the counts, the shape, the number 2 of dimensions,
/// the number of shapes, and no hierarchical shape.
pub open spec fn header_front(f: FileView) -> Seq<u8> {
    le_i32(f.nnz as i32) + le_i32(f.inc_nnz as i32) + le_i32(out_rows(f) as i32) + le_i32(
        out_cols(f) as i32,
    ) + le_i16(2i16) + le_i32(used_ids(f).len() as i32) + le_i32(0i32)
}

/// `n` fields of the same value.
pub open spec fn repeated(v: i32, n: int) -> Seq<i32> {
    Seq::new(n as nat, |k: int| v)
}

/// The greatest order, and as many reserved words.
pub open spec fn reserved(f: FileView) -> Seq<u8> {
    le_i16(dims_max(f) as i16) + i32_fields(repeated(0i32, dims_max(f)))
}

/// The lengths along the axes: `N_k - 1`, outermost axis first.
pub open spec fn lengths(ax: Seq<Pattern>) -> Seq<i32> {
    Seq::new(ax.len(), |k: int| (ax[k].0 - 1) as i32)
}

/// The strides of the axes as the file holds them: row and column stride
/// of each axis, the two exchanged where the file is transposed.
pub open spec fn lattice_out(ax: Seq<Pattern>, transpose: bool) -> Seq<i32> {
    Seq::new(
        2 * ax.len(),
        |k: int|
            if (k % 2 == 0) != transpose {
                ax[k / 2].1
            } else {
                ax[k / 2].2
            },
    )
}

/// One record of the table of shapes: the id, the encoding 0, the order,
/// the minimal corner (zeros), the lengths along the axes, unit strides,
/// and the lattice.
pub open spec fn shape_record(index: int, ax: Seq<Pattern>, transpose: bool) -> Seq<u8> {
    le_i16(index as i16) + le_i16(0i16) + le_i16(ax.len() as i16) + i32_fields(
        repeated(0i32, ax.len() as int),
    ) + i32_fields(lengths(ax)) + i32_fields(repeated(1i32, ax.len() as int)) + i32_fields(
        lattice_out(ax, transpose),
    )
}

/// The axes of the shape `id` of the file.
pub open spec fn axes_of(f: FileView, id: i32) -> Seq<Pattern> {
    axes(f.pats, id, order_of(f.pats, id))
}

/// The records of the first `upto` shapes in use.
pub open spec fn shape_table(f: FileView, upto: int) -> Seq<u8>
    decreases upto,
{
    if upto <= 0 {
        Seq::empty()
    } else {
        shape_table(f, upto - 1) + shape_record(
            upto - 1,
            axes_of(f, used_ids(f)[upto - 1]),
            f.transpose,
        )
    }
}

/// The number of values that the first `upto` pieces contribute.
pub open spec fn offset_before(f: FileView, upto: int) -> int
    decreases upto,
{
    if upto <= 0 {
        0
    } else {
        offset_before(f, upto - 1) + shape_size(axes_of(f, f.pieces[upto - 1].1))
    }
}

/// One record of the table of origins: the id that the file gives to the
/// shape, the origin (exchanged where the file is transposed), and the
/// number of values of the pieces before.
pub open spec fn origin_record(f: FileView, k: int) -> Seq<u8> {
    let origin = f.pieces[k].0;
    le_i16(rank(used_ids(f), f.pieces[k].1) as i16) + le_i32(
        (if f.transpose {
            origin.1
        } else {
            origin.0
        }) as i32,
    ) + le_i32(
        (if f.transpose {
            origin.0
        } else {
            origin.1
        }) as i32,
    ) + le_i32(offset_before(f, k) as i32)
}

/// The records of the first `upto` pieces.
pub open spec fn origin_table(f: FileView, upto: int) -> Seq<u8>
    decreases upto,
{
    if upto <= 0 {
        Seq::empty()
    } else {
        origin_table(f, upto - 1) + origin_record(f, upto - 1)
    }
}

/// The single points are indexed by compressed rows where that takes no
/// more words than two coordinates each.
pub open spec fn uses_csr(f: FileView) -> bool {
    f.nrows + 1 + resid(f) <= 2 * resid(f)
}

/// The origins of the pieces from `from` on, as the file holds them.
pub open spec fn tail_points(f: FileView, from: int) -> Seq<(usize, usize)> {
    Seq::new(
        (f.pieces.len() - from) as nat,
        |k: int|
            if f.transpose {
                (f.pieces[from + k].0.1, f.pieces[from + k].0.0)
            } else {
                f.pieces[from + k].0
            },
    )
}

/// The single points of the file.
pub open spec fn single_points(f: FileView) -> Seq<(usize, usize)> {
    tail_points(f, cutoff(f))
}

/// The row pointers of points that are sorted by rows: on entry `r` the
/// number of points in the rows before `r`.
pub open spec fn row_pointers(sorted: Seq<(usize, usize, bool)>, nrows: int) -> Seq<i32> {
    Seq::new((nrows + 1) as nat, |r: int| rows_before(sorted, r, sorted.len() as int) as i32)
}

/// The index of the single points: the format byte, then either the row
/// pointers and the columns of the points sorted by row and column, or the
/// rows and then the columns of the points in the order of the pieces.
pub open spec fn single_index(f: FileView) -> Seq<u8> {
    let points = single_points(f);
    if uses_csr(f) {
        let sorted = stored_cells(points);
        seq![0u8] + i32_fields(row_pointers(sorted, out_rows(f) as int)) + i32_fields(
            Seq::new(sorted.len(), |k: int| sorted[k].1 as i32),
        )
    } else {
        seq![2u8] + i32_fields(Seq::new(points.len(), |k: int| points[k].0 as i32)) + i32_fields(
            Seq::new(points.len(), |k: int| points[k].1 as i32),
        )
    }
}

/// What follows the pointer to the values: the reserved words, the shapes,
/// the number of origins and the origins, the index of the single points.
pub open spec fn header_back(f: FileView) -> Seq<u8> {
    reserved(f) + shape_table(f, used_ids(f).len() as int) + le_i32(cutoff(f) as i32) + origin_table(
        f,
        cutoff(f),
    ) + single_index(f)
}

/// The place of the values in the file.
pub open spec fn data_start(f: FileView) -> int {
    26 + 4 + header_back(f).len() as int
}

/// The values of the cells, 0 where the grid holds none.
pub open spec fn values_of(cells: Seq<(int, int)>, grid: Seq<(usize, usize, u64)>) -> Seq<u64> {
    Seq::new(cells.len(), |k: int| value_at(grid, cells[k].0, cells[k].1))
}

/// The grid holds a value for each of the cells.
pub open spec fn has_all(cells: Seq<(int, int)>, grid: Seq<(usize, usize, u64)>) -> bool {
    forall|k: int| 0 <= k < cells.len() ==> has_entry(grid, (#[trigger] cells[k]).0, cells[k].1)
}

/// The values of the first `upto` pieces, piece after piece, each piece
/// with its outermost axis varying slowest.
pub open spec fn values_before(f: FileView, grid: Seq<(usize, usize, u64)>, upto: int) -> Seq<u64>
    decreases upto,
{
    if upto <= 0 {
        Seq::empty()
    } else {
        values_before(f, grid, upto - 1) + values_of(
            piece_cells(f.pats, f.pieces[upto - 1].0, f.pieces[upto - 1].1),
            grid,
        )
    }
}

/// The grid holds a value for every cell of every piece.
pub open spec fn has_values(f: FileView, grid: Seq<(usize, usize, u64)>) -> bool {
    forall|k: int|
        0 <= k < f.pieces.len() ==> has_all(
            piece_cells(f.pats, (#[trigger] f.pieces[k]).0, f.pieces[k].1),
            grid,
        )
}

/// The whole file.
pub open spec fn file_bytes(f: FileView, grid: Seq<(usize, usize, u64)>) -> Seq<u8> {
    header_front(f) + le_i32(data_start(f) as i32) + header_back(f) + u64_fields(
        values_before(f, grid, f.pieces.len() as int),
    )
}

/// Every number of the file fits the field that holds it.
pub open spec fn encodable(f: FileView) -> bool {
    &&& f.nnz <= i32::MAX
    &&& f.inc_nnz <= f.nnz
    &&& f.nrows <= i32::MAX
    &&& f.ncols <= i32::MAX
    &&& used_ids(f).len() <= i16::MAX
    &&& dims_max(f) <= i16::MAX
    &&& offset_before(f, cutoff(f)) <= i32::MAX
    &&& data_start(f) <= i32::MAX
}

/// A list of fields is four bytes for each, and grows by a field at a time.
pub proof fn lemma_i32_fields(vals: Seq<i32>)
    ensures
        i32_fields(vals).len() == 4 * vals.len(),
    decreases vals.len(),
{
    crate::wire::lemma_fields();
    if vals.len() > 0 {
        lemma_i32_fields(vals.drop_last());
    }
}

/// A list of fields grows by a field at a time.
pub proof fn lemma_i32_fields_push(vals: Seq<i32>, v: i32)
    ensures
        i32_fields(vals.push(v)) == i32_fields(vals) + le_i32(v),
{
    assert(vals.push(v).drop_last() == vals);
}

/// A list of fields grows by a field at a time.
pub proof fn lemma_u64_fields_push(vals: Seq<u64>, v: u64)
    ensures
        u64_fields(vals.push(v)) == u64_fields(vals) + le_u64(v),
{
    assert(vals.push(v).drop_last() == vals);
}

/// The index of the single points starts with the byte 0, for compressed
/// rows, exactly where the rows of the matrix, one more, and the single
/// points together are no more than twice the single points; otherwise
/// with the byte 2, for coordinates.
pub proof fn lemma_format_byte(f: FileView)
    ensures
        single_index(f)[0] == 0u8 || single_index(f)[0] == 2u8,
        single_index(f)[0] == 0u8 <==> f.nrows + 1 + (f.nnz - f.inc_nnz) <= 2 * (f.nnz - f.inc_nnz),
{
}

} // verus!
