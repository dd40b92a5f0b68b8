//! Reading a file back: from bytes to coordinates and values.

use vstd::prelude::*;
use crate::errors::ErrorKind;

use crate::wire::{get_i16, get_i32, get_u64, i16_at, i32_at, u64_at};
use crate::utils::lemma_step_bound;

verus! {

/// One record of the table of shapes, as far as a reader needs it.
pub struct ShapeRecord {
    pub id: i16,
    pub dims: i16,
    pub lens: Vec<i32>,
    pub lattice: Vec<i32>,
}

/// The model of a record of the table of shapes.
pub struct ShapeView {
    pub id: i16,
    pub dims: i16,
    pub lens: Seq<i32>,
    pub lattice: Seq<i32>,
}

impl View for ShapeRecord {
    type V = ShapeView;

    open spec fn view(&self) -> ShapeView {
        ShapeView { id: self.id, dims: self.dims, lens: self.lens@, lattice: self.lattice@ }
    }
}

/// What a file decodes to: the shape of the matrix and its nonzeros, the
/// coordinates of all pieces first and those of the single points last,
/// with the bit patterns of the values in the same order.
pub struct SpfMatrix {
    pub nrows: usize,
    pub ncols: usize,
    pub rows: Vec<usize>,
    pub cols: Vec<usize>,
    pub values: Vec<u64>,
}

/// The model of a decoded file.
pub struct MatrixView {
    pub nrows: int,
    pub ncols: int,
    pub cells: Seq<(int, int)>,
    pub values: Seq<u64>,
}

impl View for SpfMatrix {
    type V = MatrixView;

    open spec fn view(&self) -> MatrixView {
        MatrixView {
            nrows: self.nrows as int,
            ncols: self.ncols as int,
            cells: Seq::new(self.rows@.len(), |k: int| (self.rows@[k] as int, self.cols@[k] as int)),
            values: self.values@,
        }
    }
}

/// `n` 32-bit fields from `at` on.
pub open spec fn i32s_at(bytes: Seq<u8>, at: int, n: int) -> Seq<i32> {
    Seq::new(n as nat, |k: int| i32_at(bytes, at + 4 * k))
}

/// `n` 64-bit fields from `at` on.
pub open spec fn u64s_at(bytes: Seq<u8>, at: int, n: int) -> Seq<u64> {
    Seq::new(n as nat, |k: int| u64_at(bytes, at + 8 * k))
}

/// The bytes that a record of `d` axes takes: three 16-bit fields and five
/// words for each axis.
pub open spec fn record_len(d: int) -> int {
    6 + 20 * d
}

/// The shape record that starts at `at`: `Err` where the data ends before
/// the record does, where the encoding is not that of vertex rectangles,
/// or where the number of axes is negative.
pub open spec fn shape_at(bytes: Seq<u8>, at: int) -> Result<ShapeView, ErrorKind> {
    if at + 4 > bytes.len() {
        Err(ErrorKind::Io)
    } else if i16_at(bytes, at + 2) != 0 {
        Err(ErrorKind::Unsupported)
    } else if at + 6 > bytes.len() {
        Err(ErrorKind::Io)
    } else if i16_at(bytes, at + 4) < 0 {
        Err(ErrorKind::Consistency)
    } else if at + record_len(i16_at(bytes, at + 4) as int) > bytes.len() {
        Err(ErrorKind::Io)
    } else {
        let d = i16_at(bytes, at + 4) as int;
        Ok(
            ShapeView {
                id: i16_at(bytes, at),
                dims: i16_at(bytes, at + 4),
                lens: i32s_at(bytes, at + 6 + 4 * d, d),
                lattice: i32s_at(bytes, at + 6 + 12 * d, 2 * d),
            },
        )
    }
}

/// `count` shape records from `at` on, and the place behind them.
pub open spec fn shapes_at(bytes: Seq<u8>, at: int, count: int) -> Result<
    (Seq<ShapeView>, int),
    ErrorKind,
>
    decreases count,
{
    if count <= 0 {
        Ok((Seq::empty(), at))
    } else {
        match shapes_at(bytes, at, count - 1) {
            Err(e) => Err(e),
            Ok((before, here)) => match shape_at(bytes, here) {
                Err(e) => Err(e),
                Ok(shape) => Ok((before.push(shape), here + record_len(shape.dims as int))),
            },
        }
    }
}

/// The last of the first `upto` records that has the id.
pub open spec fn shape_with(shapes: Seq<ShapeView>, id: i16, upto: int) -> Option<ShapeView>
    decreases upto,
{
    if upto <= 0 {
        None
    } else if shapes[upto - 1].id == id {
        Some(shapes[upto - 1])
    } else {
        shape_with(shapes, id, upto - 1)
    }
}

/// The axes that a record stands for, outermost first: `lens[k] + 1` cells
/// stepped by `(lattice[2k], lattice[2k + 1])`. A record of one axis or less
/// is read as one axis.
pub open spec fn record_axes(shape: ShapeView) -> Seq<(int, int, int)> {
    axes_from(shape.dims, shape.lens, shape.lattice)
}

/// The axes that lengths and strides stand for.
pub open spec fn axes_from(dims: i16, lens: Seq<i32>, lattice: Seq<i32>) -> Seq<(int, int, int)> {
    Seq::new(
        if dims < 2 {
            1nat
        } else {
            dims as nat
        },
        |k: int| (lens[k] + 1, lattice[2 * k] as int, lattice[2 * k + 1] as int),
    )
}

/// The record holds the lengths and strides of all of its axes.
pub open spec fn record_complete(shape: ShapeView) -> bool {
    shape.lens.len() >= record_axes(shape).len() && shape.lattice.len() >= 2 * record_axes(
        shape,
    ).len()
}

/// The cells of nested axes placed at `(row, col)`, the outermost axis
/// varying slowest.
pub open spec fn nest_cells(ax: Seq<(int, int, int)>, row: int, col: int) -> Seq<(int, int)>
    decreases ax.len(), 1int, 0int,
{
    if ax.len() == 0 {
        seq![(row, col)]
    } else {
        nest_axis(ax, row, col, ax[0].0)
    }
}

/// The cells of the first `upto` repetitions along the outermost axis.
pub open spec fn nest_axis(ax: Seq<(int, int, int)>, row: int, col: int, upto: int) -> Seq<
    (int, int),
>
    decreases ax.len(), 0int, upto,
{
    if ax.len() == 0 || upto <= 0 {
        Seq::empty()
    } else {
        nest_axis(ax, row, col, upto - 1) + nest_cells(
            ax.skip(1),
            row + (upto - 1) * ax[0].1,
            col + (upto - 1) * ax[0].2,
        )
    }
}

/// Every cell has coordinates that are no less than zero and fit an index.
pub open spec fn cells_indexable(cells: Seq<(int, int)>) -> bool {
    forall|k: int|
        0 <= k < cells.len() ==> 0 <= (#[trigger] cells[k]).0 <= usize::MAX && 0 <= cells[k].1
            <= usize::MAX
}

/// The cells of `count` origin records of 14 bytes from `at` on, record
/// after record: each names a shape of the table and places it at its
/// origin. `Err` where the data ends within a record, where a record names
/// no shape of the table or one without the lengths of its axes, or where
/// a cell has a coordinate that is no index.
pub open spec fn origin_cells(bytes: Seq<u8>, shapes: Seq<ShapeView>, at: int, count: int) -> Result<
    Seq<(int, int)>,
    ErrorKind,
>
    decreases count,
{
    if count <= 0 {
        Ok(Seq::empty())
    } else {
        match origin_cells(bytes, shapes, at, count - 1) {
            Err(e) => Err(e),
            Ok(before) => {
                let here = at + 14 * (count - 1);
                if here + 14 > bytes.len() {
                    Err(ErrorKind::Io)
                } else {
                    match shape_with(shapes, i16_at(bytes, here), shapes.len() as int) {
                        None => Err(ErrorKind::Consistency),
                        Some(shape) => {
                            let cells = nest_cells(
                                record_axes(shape),
                                i32_at(bytes, here + 2) as int,
                                i32_at(bytes, here + 6) as int,
                            );
                            if !record_complete(shape) || !cells_indexable(cells) {
                                Err(ErrorKind::Consistency)
                            } else {
                                Ok(before + cells)
                            }
                        },
                    }
                }
            },
        }
    }
}

/// The rows of the single points that the row pointers from `at` on stand
/// for, over the first `upto` rows: each row as often as its pointers
/// differ.
pub open spec fn pointer_rows(bytes: Seq<u8>, at: int, upto: int) -> Seq<int>
    decreases upto,
{
    if upto <= 0 {
        Seq::empty()
    } else {
        pointer_rows(bytes, at, upto - 1) + Seq::new(
            (i32_at(bytes, at + 4 * upto) - i32_at(bytes, at + 4 * (upto - 1))) as nat,
            |k: int| upto - 1,
        )
    }
}

/// The row pointers from `at` on never fall over the first `upto` rows.
pub open spec fn pointers_rise(bytes: Seq<u8>, at: int, upto: int) -> bool {
    forall|r: int|
        0 <= r < upto ==> i32_at(bytes, at + 4 * r) <= #[trigger] i32_at(bytes, at + 4 * (r + 1))
}

/// The fields of the header.
pub struct HeaderView {
    pub nnz: i32,
    pub inc_nnz: i32,
    pub nrows: i32,
    pub ncols: i32,
    pub num_shapes: i32,
    pub data_ptr: i32,
    pub max_dims: i16,
}

/// The header of a file of at least 32 bytes.
pub open spec fn header_of(bytes: Seq<u8>) -> HeaderView {
    HeaderView {
        nnz: i32_at(bytes, 0),
        inc_nnz: i32_at(bytes, 4),
        nrows: i32_at(bytes, 8),
        ncols: i32_at(bytes, 12),
        num_shapes: i32_at(bytes, 18),
        data_ptr: i32_at(bytes, 26),
        max_dims: i16_at(bytes, 30),
    }
}

/// The number of single points that a header announces.
pub open spec fn announced_singles(h: HeaderView) -> int {
    if h.nnz - h.inc_nnz > 0 {
        h.nnz - h.inc_nnz
    } else {
        0
    }
}

/// The coordinates of the single points, whose index starts at `at`.
pub open spec fn single_cells(bytes: Seq<u8>, h: HeaderView, at: int) -> Result<
    Seq<(int, int)>,
    ErrorKind,
> {
    let n = announced_singles(h);
    if at + 1 > bytes.len() {
        Err(ErrorKind::Io)
    } else if bytes[at] == 0 {
        let cols_at = at + 1 + 4 * (h.nrows + 1);
        if cols_at + 4 * n > bytes.len() {
            Err(ErrorKind::Io)
        } else if !pointers_rise(bytes, at + 1, h.nrows as int) {
            Err(ErrorKind::Consistency)
        } else {
            let rows = pointer_rows(bytes, at + 1, h.nrows as int);
            if rows.len() != n {
                Err(ErrorKind::Consistency)
            } else {
                Ok(Seq::new(n as nat, |k: int| (rows[k], i32_at(bytes, cols_at + 4 * k) as int)))
            }
        }
    } else if bytes[at] == 2 {
        if at + 1 + 8 * n > bytes.len() {
            Err(ErrorKind::Io)
        } else {
            Ok(
                Seq::new(
                    n as nat,
                    |k: int|
                        (
                            i32_at(bytes, at + 1 + 4 * k) as int,
                            i32_at(bytes, at + 1 + 4 * n + 4 * k) as int,
                        ),
                ),
            )
        }
    } else {
        Err(ErrorKind::Unsupported)
    }
}

/// Every cell lies inside `nrows x ncols`.
pub open spec fn cells_inside(cells: Seq<(int, int)>, nrows: int, ncols: int) -> bool {
    forall|k: int|
        0 <= k < cells.len() ==> 0 <= (#[trigger] cells[k]).0 < nrows && 0 <= cells[k].1 < ncols
}

/// What the bytes of a file decode to.
///
/// The header is read first; a number of dimensions other than 2 is not
/// supported. The records of the shapes follow the reserved words, then the
/// origins, whose shapes are expanded into cells, then the index of the
/// single points and, from the place that the header names, the values.
/// The file is inconsistent where a count is negative, where the cells are
/// not as many as the values or where one lies outside the matrix.
pub open spec fn decode(bytes: Seq<u8>) -> Result<MatrixView, ErrorKind> {
    if bytes.len() < 18 {
        Err(ErrorKind::Io)
    } else if i16_at(bytes, 16) != 2 {
        Err(ErrorKind::Unsupported)
    } else if bytes.len() < 32 {
        Err(ErrorKind::Io)
    } else {
        let h = header_of(bytes);
        if h.nnz < 0 || h.nrows < 0 || h.ncols < 0 || h.max_dims < 0 || h.num_shapes < 0 {
            Err(ErrorKind::Consistency)
        } else {
            match shapes_at(bytes, 32 + 4 * h.max_dims, h.num_shapes as int) {
                Err(e) => Err(e),
                Ok((shapes, origins_at)) => if origins_at + 4 > bytes.len() {
                    Err(ErrorKind::Io)
                } else {
                    let count = if i32_at(bytes, origins_at) > 0 {
                        i32_at(bytes, origins_at) as int
                    } else {
                        0
                    };
                    match origin_cells(bytes, shapes, origins_at + 4, count) {
                        Err(e) => Err(e),
                        Ok(placed) => match single_cells(bytes, h, origins_at + 4 + 14 * count) {
                            Err(e) => Err(e),
                            Ok(singles) => if h.data_ptr < 0 || h.data_ptr + 8 * h.nnz
                                > bytes.len() {
                                Err(ErrorKind::Io)
                            } else if (placed + singles).len() != h.nnz || !cells_inside(
                                placed + singles,
                                h.nrows as int,
                                h.ncols as int,
                            ) {
                                Err(ErrorKind::Consistency)
                            } else {
                                Ok(
                                    MatrixView {
                                        nrows: h.nrows as int,
                                        ncols: h.ncols as int,
                                        cells: placed + singles,
                                        values: u64s_at(bytes, h.data_ptr as int, h.nnz as int),
                                    },
                                )
                            },
                        },
                    }
                },
            }
        }
    }
}

/// The records of a vector, each by its view.
pub open spec fn views(shapes: Seq<ShapeRecord>) -> Seq<ShapeView> {
    Seq::new(shapes.len(), |k: int| shapes[k]@)
}

/// Rows and columns as cells.
pub open spec fn zip_cells(rows: Seq<usize>, cols: Seq<usize>) -> Seq<(int, int)> {
    Seq::new(rows.len(), |k: int| (rows[k] as int, cols[k] as int))
}

/// `n` fields from `at` on.
fn read_i32s(bytes: &[u8], at: usize, n: usize) -> (vals: Vec<i32>)
    requires
        at + 4 * n <= bytes@.len(),
    ensures
        vals@ == i32s_at(bytes@, at as int, n as int),
{
    let mut vals: Vec<i32> = Vec::new();
    let mut k: usize = 0;
    let total = bytes.len();
    while k < n
        invariant
            k <= n,
            total == bytes@.len(),
            at + 4 * n <= bytes@.len(),
            vals@ == i32s_at(bytes@, at as int, k as int),
        decreases n - k,
    {
        vals.push(get_i32(bytes, at + 4 * k));
        proof {
            assert(i32s_at(bytes@, at as int, k as int + 1) =~= i32s_at(
                bytes@,
                at as int,
                k as int,
            ).push(i32_at(bytes@, at + 4 * k)));
        }
        k += 1;
    }
    vals
}

/// The shape record that starts at `at`.
fn read_shape(bytes: &[u8], at: usize) -> (found: Result<ShapeRecord, ErrorKind>)
    ensures
        match found {
            Ok(shape) => shape_at(bytes@, at as int) == Ok::<ShapeView, ErrorKind>(shape@),
            Err(e) => shape_at(bytes@, at as int) == Err::<ShapeView, ErrorKind>(e),
        },
{
    let len = bytes.len() as u128;
    let here = at as u128;
    if here + 4 > len {
        return Err(ErrorKind::Io);
    }
    if get_i16(bytes, at + 2) != 0 {
        return Err(ErrorKind::Unsupported);
    }
    if here + 6 > len {
        return Err(ErrorKind::Io);
    }
    let id = get_i16(bytes, at);
    let dims = get_i16(bytes, at + 4);
    if dims < 0 {
        return Err(ErrorKind::Consistency);
    }
    let d = dims as usize;
    if here + 6 + 20 * (d as u128) > len {
        return Err(ErrorKind::Io);
    }
    let lens = read_i32s(bytes, at + 6 + 4 * d, d);
    let lattice = read_i32s(bytes, at + 6 + 12 * d, 2 * d);
    Ok(ShapeRecord { id, dims, lens, lattice })
}

/// `count` shape records from `at` on, and the place behind them.
fn read_shapes(bytes: &[u8], at: usize, count: usize) -> (found: Result<
    (Vec<ShapeRecord>, usize),
    ErrorKind,
>)
    ensures
        match found {
            Ok((shapes, next)) => shapes_at(bytes@, at as int, count as int) == Ok::<
                (Seq<ShapeView>, int),
                ErrorKind,
            >((views(shapes@), next as int)),
            Err(e) => shapes_at(bytes@, at as int, count as int) == Err::<
                (Seq<ShapeView>, int),
                ErrorKind,
            >(e),
        },
{
    let mut shapes: Vec<ShapeRecord> = Vec::new();
    let mut here = at;
    let mut k: usize = 0;
    let total = bytes.len();
    proof {
        assert(views(shapes@) =~= Seq::<ShapeView>::empty());
    }
    while k < count
        invariant
            k <= count,
            total == bytes@.len(),
            shapes_at(bytes@, at as int, k as int) == Ok::<(Seq<ShapeView>, int), ErrorKind>(
                (views(shapes@), here as int),
            ),
        decreases count - k,
    {
        match read_shape(bytes, here) {
            Err(e) => {
                proof {
                    lemma_shapes_fail(bytes@, at as int, k as int + 1, count as int);
                }
                return Err(e);
            },
            Ok(shape) => {
                let ghost before = views(shapes@);
                let d = shape.dims as usize;
                assert(here + record_len(d as int) <= total);
                here = here + 6 + 20 * d;
                shapes.push(shape);
                proof {
                    assert(views(shapes@) =~= before.push(shape@));
                }
            },
        }
        k += 1;
    }
    Ok((shapes, here))
}

/// Where the first records fail, more records fail in the same way.
proof fn lemma_shapes_fail(bytes: Seq<u8>, at: int, upto: int, count: int)
    requires
        0 <= upto <= count,
        shapes_at(bytes, at, upto) is Err,
    ensures
        shapes_at(bytes, at, count) == shapes_at(bytes, at, upto),
    decreases count - upto,
{
    if upto < count {
        lemma_shapes_fail(bytes, at, upto, count - 1);
    }
}

/// The place of the last record with the id.
fn find_shape(shapes: &Vec<ShapeRecord>, id: i16) -> (place: Option<usize>)
    ensures
        match place {
            Some(k) => k < shapes@.len() && shape_with(views(shapes@), id, shapes@.len() as int)
                == Some(shapes@[k as int]@),
            None => shape_with(views(shapes@), id, shapes@.len() as int) is None,
        },
{
    let mut place: Option<usize> = None;
    let mut k: usize = 0;
    while k < shapes.len()
        invariant
            k <= shapes@.len(),
            match place {
                Some(p) => p < k && shape_with(views(shapes@), id, k as int) == Some(
                    shapes@[p as int]@,
                ),
                None => shape_with(views(shapes@), id, k as int) is None,
            },
        decreases shapes.len() - k,
    {
        if shapes[k].id == id {
            place = Some(k);
        }
        k += 1;
    }
    place
}

/// The bound that keeps the coordinates of nested origins within 128 bits.
pub open spec fn reachable(v: int, depth: int) -> bool {
    -0x10_0000_0000_0000_0000_0000_0000 + depth * 0x8000_0000_0000_0000 <= v
        <= 0x10_0000_0000_0000_0000_0000_0000 - depth * 0x8000_0000_0000_0000
}

/// Where all cells of the first repetitions of an axis are indexable, so
/// are those of fewer repetitions.
proof fn lemma_axis_indexable(ax: Seq<(int, int, int)>, row: int, col: int, upto: int, n: int)
    requires
        0 <= upto <= n,
        ax.len() > 0,
        cells_indexable(nest_axis(ax, row, col, n)),
    ensures
        cells_indexable(nest_axis(ax, row, col, upto)),
    decreases n - upto,
{
    if upto < n {
        let prev = nest_axis(ax, row, col, n - 1);
        let whole = nest_axis(ax, row, col, n);
        assert forall|k: int| 0 <= k < prev.len() implies 0 <= (#[trigger] prev[k]).0 <= usize::MAX
            && 0 <= prev[k].1 <= usize::MAX by {
            assert(whole[k] == prev[k]);
        }
        lemma_axis_indexable(ax, row, col, upto, n - 1);
    }
}

/// Appends the cells of the axes from `level` on, placed at `(row, col)`:
/// the rows to `rowvec`, the columns to `colvec`. Reports whether every
/// cell had coordinates that are indexes; where one had not, what was
/// appended is of no use.
fn populate(
    dims: i16,
    lens: &[i32],
    lattice: &[i32],
    level: usize,
    row: i128,
    col: i128,
    rowvec: &mut Vec<usize>,
    colvec: &mut Vec<usize>,
) -> (ok: bool)
    requires
        lens@.len() >= axes_from(dims, lens@, lattice@).len(),
        lattice@.len() >= 2 * axes_from(dims, lens@, lattice@).len(),
        level <= axes_from(dims, lens@, lattice@).len(),
        reachable(row as int, axes_from(dims, lens@, lattice@).len() - level),
        reachable(col as int, axes_from(dims, lens@, lattice@).len() - level),
        old(rowvec)@.len() == old(colvec)@.len(),
    ensures
        ok == cells_indexable(
            nest_cells(axes_from(dims, lens@, lattice@).skip(level as int), row as int, col as int),
        ),
        ok ==> final(rowvec)@.len() == final(colvec)@.len() && zip_cells(
            final(rowvec)@,
            final(colvec)@,
        ) == zip_cells(old(rowvec)@, old(colvec)@) + nest_cells(
            axes_from(dims, lens@, lattice@).skip(level as int),
            row as int,
            col as int,
        ),
    decreases axes_from(dims, lens@, lattice@).len() - level,
{
    let ghost ax = axes_from(dims, lens@, lattice@);
    let ghost here = ax.skip(level as int);
    let ghost start = zip_cells(rowvec@, colvec@);
    let depth: usize = if dims < 2 {
        1
    } else {
        dims as usize
    };
    if level >= depth {
        proof {
            assert(here.len() == 0);
            assert(nest_cells(here, row as int, col as int) == seq![(row as int, col as int)]);
        }
        if row < 0 || col < 0 || row > usize::MAX as i128 || col > usize::MAX as i128 {
            proof {
                assert(nest_cells(here, row as int, col as int)[0] == (row as int, col as int));
            }
            return false;
        }
        rowvec.push(row as usize);
        colvec.push(col as usize);
        proof {
            assert(zip_cells(rowvec@, colvec@) =~= start + nest_cells(
                here,
                row as int,
                col as int,
            ));
        }
        return true;
    }
    let n: i64 = lens[level] as i64 + 1;
    let i = lattice[2 * level];
    let j = lattice[2 * level + 1];
    proof {
        assert(here[0] == ax[level as int]);
        assert(here[0] == (n as int, i as int, j as int));
        assert(here.skip(1) == ax.skip(level as int + 1));
        assert(nest_axis(here, row as int, col as int, 0) =~= Seq::<(int, int)>::empty());
        assert(zip_cells(rowvec@, colvec@) =~= start + nest_axis(here, row as int, col as int, 0));
    }
    let mut k: i64 = 0;
    while k < n
        invariant
            0 <= k,
            k <= n || n < 0,
            n <= 0 ==> k == 0,
            n <= 0x8000_0000,
            ax == axes_from(dims, lens@, lattice@),
            here == ax.skip(level as int),
            here.len() > 0,
            here[0] == (n as int, i as int, j as int),
            here.skip(1) == ax.skip(level as int + 1),
            lens@.len() >= ax.len(),
            lattice@.len() >= 2 * ax.len(),
            level < ax.len(),
            reachable(row as int, ax.len() - level),
            reachable(col as int, ax.len() - level),
            start == zip_cells(old(rowvec)@, old(colvec)@),
            rowvec@.len() == colvec@.len(),
            cells_indexable(nest_axis(here, row as int, col as int, k as int)),
            zip_cells(rowvec@, colvec@) == start + nest_axis(here, row as int, col as int, k as int),
        decreases n - k,
    {
        proof {
            lemma_step_bound(k as int, i as int);
            lemma_step_bound(k as int, j as int);
        }
        let r: i128 = row + (k as i128) * (i as i128);
        let c: i128 = col + (k as i128) * (j as i128);
        let ghost before = nest_axis(here, row as int, col as int, k as int);
        let ghost block = nest_cells(here.skip(1), r as int, c as int);
        let ghost after = nest_axis(here, row as int, col as int, k as int + 1);
        proof {
            assert(after == before + block);
        }
        let ok = populate(dims, lens, lattice, level + 1, r, c, rowvec, colvec);
        if !ok {
            proof {
                if cells_indexable(nest_axis(here, row as int, col as int, n as int)) {
                    lemma_axis_indexable(here, row as int, col as int, k as int + 1, n as int);
                    assert forall|m: int| 0 <= m < block.len() implies 0 <= (#[trigger] block[m]).0
                        <= usize::MAX && 0 <= block[m].1 <= usize::MAX by {
                        assert(after[before.len() + m] == block[m]);
                    }
                }
            }
            return false;
        }
        proof {
            assert forall|m: int| 0 <= m < after.len() implies 0 <= (#[trigger] after[m]).0
                <= usize::MAX && 0 <= after[m].1 <= usize::MAX by {
                if m < before.len() {
                    assert(after[m] == before[m]);
                } else {
                    assert(after[m] == block[m - before.len()]);
                }
            }
            assert(zip_cells(rowvec@, colvec@) =~= start + after);
        }
        k += 1;
    }
    proof {
        if n <= 0 {
            assert(nest_axis(here, row as int, col as int, n as int) =~= nest_axis(
                here,
                row as int,
                col as int,
                0,
            ));
        }
        assert(nest_cells(here, row as int, col as int) == nest_axis(
            here,
            row as int,
            col as int,
            n as int,
        ));
    }
    true
}

/// Expands a shape record placed at `(base_row, base_col)` into the
/// coordinates of its cells, the outermost axis varying slowest: along
/// axis `k` there are `l_len_along_axis[k] + 1` steps of
/// `(l_c[2k], l_c[2k + 1])`. A record of fewer than two axes is read as one
/// axis. The rows are appended to `rowvec`, the columns to `colvec`.
/// Reports whether every coordinate was an index; where one was not, what
/// was appended is of no use.
pub fn recursive_populate_row_col_vec(
    l_dim_of_ip: i16,
    l_len_along_axis: &[i32],
    l_c: &[i32],
    rowvec: &mut Vec<usize>,
    colvec: &mut Vec<usize>,
    base_row: i32,
    base_col: i32,
) -> (ok: bool)
    requires
        l_len_along_axis@.len() >= axes_from(l_dim_of_ip, l_len_along_axis@, l_c@).len(),
        l_c@.len() >= 2 * axes_from(l_dim_of_ip, l_len_along_axis@, l_c@).len(),
        old(rowvec)@.len() == old(colvec)@.len(),
    ensures
        ok == cells_indexable(
            nest_cells(
                axes_from(l_dim_of_ip, l_len_along_axis@, l_c@),
                base_row as int,
                base_col as int,
            ),
        ),
        ok ==> final(rowvec)@.len() == final(colvec)@.len() && zip_cells(
            final(rowvec)@,
            final(colvec)@,
        ) == zip_cells(old(rowvec)@, old(colvec)@) + nest_cells(
            axes_from(l_dim_of_ip, l_len_along_axis@, l_c@),
            base_row as int,
            base_col as int,
        ),
{
    proof {
        let ax = axes_from(l_dim_of_ip, l_len_along_axis@, l_c@);
        assert(ax.skip(0) == ax);
    }
    populate(
        l_dim_of_ip,
        l_len_along_axis,
        l_c,
        0,
        base_row as i128,
        base_col as i128,
        rowvec,
        colvec,
    )
}

/// Where the first origin records fail, more records fail in the same way.
proof fn lemma_origins_fail(bytes: Seq<u8>, shapes: Seq<ShapeView>, at: int, upto: int, count: int)
    requires
        0 <= upto <= count,
        origin_cells(bytes, shapes, at, upto) is Err,
    ensures
        origin_cells(bytes, shapes, at, count) == origin_cells(bytes, shapes, at, upto),
    decreases count - upto,
{
    if upto < count {
        lemma_origins_fail(bytes, shapes, at, upto, count - 1);
    }
}

/// Reads `count` origin records from `at` on and expands their shapes into
/// `rowvec` and `colvec`.
fn read_origins(
    bytes: &[u8],
    shapes: &Vec<ShapeRecord>,
    at: usize,
    count: usize,
    rowvec: &mut Vec<usize>,
    colvec: &mut Vec<usize>,
) -> (done: Result<(), ErrorKind>)
    requires
        old(rowvec)@.len() == 0,
        old(colvec)@.len() == 0,
        at <= bytes@.len(),
    ensures
        match done {
            Ok(_) => final(rowvec)@.len() == final(colvec)@.len() && origin_cells(
                bytes@,
                views(shapes@),
                at as int,
                count as int,
            ) == Ok::<Seq<(int, int)>, ErrorKind>(zip_cells(final(rowvec)@, final(colvec)@))
                && at + 14 * count <= bytes@.len(),
            Err(e) => origin_cells(bytes@, views(shapes@), at as int, count as int) == Err::<
                Seq<(int, int)>,
                ErrorKind,
            >(e),
        },
{
    let total = bytes.len();
    let mut k: usize = 0;
    proof {
        assert(zip_cells(rowvec@, colvec@) =~= Seq::<(int, int)>::empty());
    }
    while k < count
        invariant
            k <= count,
            total == bytes@.len(),
            at + 14 * k <= total,
            rowvec@.len() == colvec@.len(),
            origin_cells(bytes@, views(shapes@), at as int, k as int) == Ok::<
                Seq<(int, int)>,
                ErrorKind,
            >(zip_cells(rowvec@, colvec@)),
        decreases count - k,
    {
        let here = at + 14 * k;
        if total - here < 14 {
            proof {
                lemma_origins_fail(bytes@, views(shapes@), at as int, k as int + 1, count as int);
            }
            return Err(ErrorKind::Io);
        }
        let id = get_i16(bytes, here);
        let row = get_i32(bytes, here + 2);
        let col = get_i32(bytes, here + 6);
        let place = find_shape(shapes, id);
        let p: usize = match place {
            Some(p) => p,
            None => {
                proof {
                    lemma_origins_fail(
                        bytes@,
                        views(shapes@),
                        at as int,
                        k as int + 1,
                        count as int,
                    );
                }
                return Err(ErrorKind::Consistency);
            },
        };
        let shape = &shapes[p];
        let depth: usize = if shape.dims < 2 {
            1
        } else {
            shape.dims as usize
        };
        if shape.lens.len() < depth || shape.lattice.len() / 2 < depth {
            proof {
                assert(!record_complete(shape@));
                lemma_origins_fail(bytes@, views(shapes@), at as int, k as int + 1, count as int);
            }
            return Err(ErrorKind::Consistency);
        }
        let ghost before = zip_cells(rowvec@, colvec@);
        proof {
            assert(record_axes(shape@).skip(0) == record_axes(shape@));
            assert(record_complete(shape@));
        }
        let ok = populate(
            shape.dims,
            shape.lens.as_slice(),
            shape.lattice.as_slice(),
            0,
            row as i128,
            col as i128,
            rowvec,
            colvec,
        );
        if !ok {
            proof {
                lemma_origins_fail(bytes@, views(shapes@), at as int, k as int + 1, count as int);
            }
            return Err(ErrorKind::Consistency);
        }
        k += 1;
    }
    Ok(())
}

/// Cells with coordinates of either sign.
pub open spec fn wide_cells(cells: Seq<(i64, i64)>) -> Seq<(int, int)> {
    Seq::new(cells.len(), |k: int| (cells[k].0 as int, cells[k].1 as int))
}

/// Over rows whose pointers rise, the rows that the pointers stand for are
/// as many as the last pointer exceeds the first.
proof fn lemma_pointer_rows(bytes: Seq<u8>, at: int, upto: int)
    requires
        0 <= upto,
        pointers_rise(bytes, at, upto),
    ensures
        pointer_rows(bytes, at, upto).len() == i32_at(bytes, at + 4 * upto) - i32_at(bytes, at),
        forall|k: int|
            0 <= k < pointer_rows(bytes, at, upto).len() ==> 0 <= #[trigger] pointer_rows(
                bytes,
                at,
                upto,
            )[k] < upto,
    decreases upto,
{
    if upto > 0 {
        assert(pointers_rise(bytes, at, upto - 1)) by {
            assert forall|r: int| 0 <= r < upto - 1 implies i32_at(bytes, at + 4 * r)
                <= #[trigger] i32_at(bytes, at + 4 * (r + 1)) by {}
        }
        lemma_pointer_rows(bytes, at, upto - 1);
        assert(i32_at(bytes, at + 4 * (upto - 1)) <= i32_at(bytes, at + 4 * ((upto - 1) + 1)));
        let prev = pointer_rows(bytes, at, upto - 1);
        let out = pointer_rows(bytes, at, upto);
        assert forall|k: int| 0 <= k < out.len() implies 0 <= #[trigger] out[k] < upto by {
            if k < prev.len() {
                assert(out[k] == prev[k]);
            }
        }
    }
}

/// The coordinates of the single points, whose index starts at `at`.
fn read_singles(bytes: &[u8], nnz: i32, inc_nnz: i32, nrows: i32, at: usize) -> (found: Result<
    Vec<(i64, i64)>,
    ErrorKind,
>)
    requires
        bytes@.len() >= 32,
        nrows >= 0,
        nrows == header_of(bytes@).nrows,
        nnz == header_of(bytes@).nnz,
        inc_nnz == header_of(bytes@).inc_nnz,
        at <= bytes@.len(),
    ensures
        match found {
            Ok(cells) => single_cells(bytes@, header_of(bytes@), at as int) == Ok::<
                Seq<(int, int)>,
                ErrorKind,
            >(wide_cells(cells@)),
            Err(e) => single_cells(bytes@, header_of(bytes@), at as int) == Err::<
                Seq<(int, int)>,
                ErrorKind,
            >(e),
        },
{
    let ghost h = header_of(bytes@);
    let total = bytes.len();
    let n: usize = if nnz as i64 - inc_nnz as i64 > 0 {
        (nnz as i64 - inc_nnz as i64) as usize
    } else {
        0
    };
    assert(n == announced_singles(h));
    if total - at < 1 {
        return Err(ErrorKind::Io);
    }
    let format = bytes[at];
    let mut cells: Vec<(i64, i64)> = Vec::new();
    if format == 0 {
        let need: u128 = 1 + 4 * (nrows as u128 + 1) + 4 * (n as u128);
        if need > (total - at) as u128 {
            return Err(ErrorKind::Io);
        }
        let ptrs_at = at + 1;
        let cols_at = at + 1 + 4 * (nrows as usize + 1);
        let mut rows: Vec<i64> = Vec::new();
        let mut r: usize = 0;
        while r < nrows as usize
            invariant
                r <= nrows,
                total == bytes@.len(),
                ptrs_at == at + 1,
                h == header_of(bytes@),
                nrows == h.nrows,
                n == announced_singles(h),
                bytes@[at as int] == 0,
                at + 1 + 4 * (nrows + 1) + 4 * n <= total,
                pointers_rise(bytes@, ptrs_at as int, r as int),
                rows@.len() <= n,
                rows@.len() == pointer_rows(bytes@, ptrs_at as int, r as int).len(),
                forall|k: int|
                    0 <= k < rows@.len() ==> #[trigger] rows@[k] == pointer_rows(
                        bytes@,
                        ptrs_at as int,
                        r as int,
                    )[k],
            decreases nrows - r,
        {
            let low = get_i32(bytes, ptrs_at + 4 * r);
            let high = get_i32(bytes, ptrs_at + 4 * (r + 1));
            if high < low {
                proof {
                    assert(!pointers_rise(bytes@, ptrs_at as int, nrows as int));
                }
                return Err(ErrorKind::Consistency);
            }
            let add: i64 = high as i64 - low as i64;
            proof {
                assert(pointers_rise(bytes@, ptrs_at as int, r as int + 1)) by {
                    assert forall|q: int| 0 <= q < r + 1 implies i32_at(bytes@, ptrs_at + 4 * q)
                        <= #[trigger] i32_at(bytes@, ptrs_at + 4 * (q + 1)) by {
                        if q < r {
                        }
                    }
                }
            }
            if add > (n - rows.len()) as i64 {
                proof {
                    if pointers_rise(bytes@, ptrs_at as int, nrows as int) {
                        lemma_pointer_rows(bytes@, ptrs_at as int, r as int + 1);
                        lemma_pointer_rows(bytes@, ptrs_at as int, nrows as int);
                        lemma_pointers_order(bytes@, ptrs_at as int, r as int + 1, nrows as int);
                    }
                }
                return Err(ErrorKind::Consistency);
            }
            let mut c: i64 = 0;
            let ghost base = rows@;
            while c < add
                invariant
                    0 <= c <= add,
                    r < nrows,
                    base.len() + add <= n,
                    rows@.len() == base.len() + c,
                    forall|k: int| 0 <= k < base.len() ==> rows@[k] == base[k],
                    forall|k: int| base.len() <= k < rows@.len() ==> rows@[k] == r as i64,
                decreases add - c,
            {
                rows.push(r as i64);
                c += 1;
            }
            proof {
                let prev = pointer_rows(bytes@, ptrs_at as int, r as int);
                let next = pointer_rows(bytes@, ptrs_at as int, r as int + 1);
                assert(next == prev + Seq::new(add as nat, |k: int| r as int));
                assert forall|k: int| 0 <= k < rows@.len() implies #[trigger] rows@[k] == next[k] by {
                    if k < base.len() {
                        assert(rows@[k] == base[k]);
                        assert(next[k] == prev[k]);
                    }
                }
            }
            r += 1;
        }
        if rows.len() != n {
            return Err(ErrorKind::Consistency);
        }
        let mut k: usize = 0;
        let ghost want = single_cells(bytes@, h, at as int).unwrap();
        while k < n
            invariant
                k <= n,
                total == bytes@.len(),
                cols_at == at + 1 + 4 * (nrows + 1),
                cols_at + 4 * n <= total,
                rows@.len() == n,
                forall|m: int|
                    0 <= m < n ==> #[trigger] rows@[m] == pointer_rows(
                        bytes@,
                        at + 1,
                        nrows as int,
                    )[m],
                cells@.len() == k,
                forall|m: int|
                    0 <= m < k ==> (#[trigger] cells@[m]).0 == rows@[m] && cells@[m].1 == i32_at(
                        bytes@,
                        cols_at + 4 * m,
                    ),
            decreases n - k,
        {
            let col = get_i32(bytes, cols_at + 4 * k);
            cells.push((rows[k], col as i64));
            k += 1;
        }
        proof {
            assert(want =~= wide_cells(cells@));
        }
        Ok(cells)
    } else if format == 2 {
        let need: u128 = 1 + 8 * (n as u128);
        if need > (total - at) as u128 {
            return Err(ErrorKind::Io);
        }
        let mut k: usize = 0;
        let ghost want = single_cells(bytes@, h, at as int).unwrap();
        while k < n
            invariant
                k <= n,
                total == bytes@.len(),
                at + 1 + 8 * n <= total,
                cells@.len() == k,
                forall|m: int|
                    0 <= m < k ==> (#[trigger] cells@[m]).0 == i32_at(bytes@, at + 1 + 4 * m)
                        && cells@[m].1 == i32_at(bytes@, at + 1 + 4 * n + 4 * m),
            decreases n - k,
        {
            let row = get_i32(bytes, at + 1 + 4 * k);
            let col = get_i32(bytes, at + 1 + 4 * n + 4 * k);
            cells.push((row as i64, col as i64));
            k += 1;
        }
        proof {
            assert(want =~= wide_cells(cells@));
        }
        Ok(cells)
    } else {
        Err(ErrorKind::Unsupported)
    }
}

/// Pointers that rise over a range do not fall between two of its rows.
proof fn lemma_pointers_order(bytes: Seq<u8>, at: int, a: int, b: int)
    requires
        0 <= a <= b,
        pointers_rise(bytes, at, b),
    ensures
        i32_at(bytes, at + 4 * a) <= i32_at(bytes, at + 4 * b),
    decreases b - a,
{
    if a < b {
        lemma_pointers_order(bytes, at, a, b - 1);
        assert(i32_at(bytes, at + 4 * (b - 1)) <= i32_at(bytes, at + 4 * ((b - 1) + 1)));
    }
}

/// Whether every cell lies inside `nrows x ncols`.
fn all_inside(rows: &Vec<usize>, cols: &Vec<usize>, nrows: usize, ncols: usize) -> (inside: bool)
    requires
        rows@.len() == cols@.len(),
    ensures
        inside == cells_inside(zip_cells(rows@, cols@), nrows as int, ncols as int),
{
    let mut k: usize = 0;
    while k < rows.len()
        invariant
            k <= rows@.len(),
            rows@.len() == cols@.len(),
            forall|m: int|
                0 <= m < k ==> 0 <= (#[trigger] zip_cells(rows@, cols@)[m]).0 < nrows && 0
                    <= zip_cells(rows@, cols@)[m].1 < ncols,
        decreases rows.len() - k,
    {
        if rows[k] >= nrows || cols[k] >= ncols {
            proof {
                let cell = zip_cells(rows@, cols@)[k as int];
                assert(!(0 <= cell.0 < nrows && 0 <= cell.1 < ncols));
            }
            return false;
        }
        k += 1;
    }
    true
}

/// Whether every cell lies inside `nrows x ncols`.
fn wide_inside(cells: &Vec<(i64, i64)>, nrows: i64, ncols: i64) -> (inside: bool)
    ensures
        inside == cells_inside(wide_cells(cells@), nrows as int, ncols as int),
{
    let mut k: usize = 0;
    while k < cells.len()
        invariant
            k <= cells@.len(),
            forall|m: int|
                0 <= m < k ==> 0 <= (#[trigger] wide_cells(cells@)[m]).0 < nrows && 0 <= wide_cells(
                    cells@,
                )[m].1 < ncols,
        decreases cells.len() - k,
    {
        let (row, col) = cells[k];
        if row < 0 || row >= nrows || col < 0 || col >= ncols {
            proof {
                let cell = wide_cells(cells@)[k as int];
                assert(!(0 <= cell.0 < nrows && 0 <= cell.1 < ncols));
            }
            return false;
        }
        k += 1;
    }
    true
}

/// Appends cells whose coordinates are indexes.
fn append_singles(rows: &mut Vec<usize>, cols: &mut Vec<usize>, cells: &Vec<(i64, i64)>)
    requires
        old(rows)@.len() == old(cols)@.len(),
        forall|m: int|
            0 <= m < cells@.len() ==> 0 <= (#[trigger] cells@[m]).0 <= usize::MAX && 0 <= cells@[m].1
                <= usize::MAX,
    ensures
        final(rows)@.len() == final(cols)@.len(),
        zip_cells(final(rows)@, final(cols)@) == zip_cells(old(rows)@, old(cols)@) + wide_cells(
            cells@,
        ),
{
    let ghost start = zip_cells(rows@, cols@);
    let mut k: usize = 0;
    while k < cells.len()
        invariant
            k <= cells@.len(),
            rows@.len() == cols@.len(),
            rows@.len() == start.len() + k,
            forall|m: int|
                0 <= m < cells@.len() ==> 0 <= (#[trigger] cells@[m]).0 <= usize::MAX && 0
                    <= cells@[m].1 <= usize::MAX,
            forall|m: int| 0 <= m < start.len() ==> zip_cells(rows@, cols@)[m] == start[m],
            forall|m: int|
                0 <= m < k ==> zip_cells(rows@, cols@)[start.len() + m] == wide_cells(cells@)[m],
        decreases cells.len() - k,
    {
        let (row, col) = cells[k];
        rows.push(row as usize);
        cols.push(col as usize);
        k += 1;
    }
    proof {
        assert(zip_cells(rows@, cols@) =~= start + wide_cells(cells@));
    }
}

/// `n` 64-bit fields from `at` on.
fn read_u64s(bytes: &[u8], at: usize, n: usize) -> (vals: Vec<u64>)
    requires
        at + 8 * n <= bytes@.len(),
    ensures
        vals@ == u64s_at(bytes@, at as int, n as int),
{
    let mut vals: Vec<u64> = Vec::new();
    let mut k: usize = 0;
    let total = bytes.len();
    while k < n
        invariant
            k <= n,
            total == bytes@.len(),
            at + 8 * n <= bytes@.len(),
            vals@ == u64s_at(bytes@, at as int, k as int),
        decreases n - k,
    {
        vals.push(get_u64(bytes, at + 8 * k));
        proof {
            assert(u64s_at(bytes@, at as int, k as int + 1) =~= u64s_at(
                bytes@,
                at as int,
                k as int,
            ).push(u64_at(bytes@, at + 8 * k)));
        }
        k += 1;
    }
    vals
}

/// Decodes the bytes of a file into the shape of the matrix, the
/// coordinates of its nonzeros and the bit patterns of their values. The
/// coordinates of the pieces come first, piece after piece in the order of
/// the file, each piece with its outermost axis varying slowest; those of
/// the single points follow. The values stand in the same order.
pub fn convert_spf(input: &[u8]) -> (out: Result<SpfMatrix, ErrorKind>)
    ensures
        match out {
            Ok(m) => decode(input@) == Ok::<MatrixView, ErrorKind>(m@) && m.rows@.len()
                == m.cols@.len(),
            Err(e) => decode(input@) == Err::<MatrixView, ErrorKind>(e),
        },
{
    let total = input.len();
    if total < 18 {
        return Err(ErrorKind::Io);
    }
    if get_i16(input, 16) != 2 {
        return Err(ErrorKind::Unsupported);
    }
    if total < 32 {
        return Err(ErrorKind::Io);
    }
    let ghost h = header_of(input@);
    let nnz = get_i32(input, 0);
    let inc_nnz = get_i32(input, 4);
    let nrows = get_i32(input, 8);
    let ncols = get_i32(input, 12);
    let num_shapes = get_i32(input, 18);
    let data_ptr = get_i32(input, 26);
    let max_dims = get_i16(input, 30);
    if nnz < 0 || nrows < 0 || ncols < 0 || max_dims < 0 || num_shapes < 0 {
        return Err(ErrorKind::Consistency);
    }
    let shapes_start: usize = 32 + 4 * (max_dims as usize);
    let (shapes, origins_at) = match read_shapes(input, shapes_start, num_shapes as usize) {
        Ok(found) => found,
        Err(e) => {
            return Err(e);
        },
    };
    if origins_at as u128 + 4 > total as u128 {
        return Err(ErrorKind::Io);
    }
    let announced = get_i32(input, origins_at);
    let count: usize = if announced > 0 {
        announced as usize
    } else {
        0
    };
    let mut rowvec: Vec<usize> = Vec::new();
    let mut colvec: Vec<usize> = Vec::new();
    match read_origins(input, &shapes, origins_at + 4, count, &mut rowvec, &mut colvec) {
        Ok(_) => {},
        Err(e) => {
            return Err(e);
        },
    }
    let ghost placed = zip_cells(rowvec@, colvec@);
    let singles_at = origins_at + 4 + 14 * count;
    let singles = match read_singles(input, nnz, inc_nnz, nrows, singles_at) {
        Ok(found) => found,
        Err(e) => {
            return Err(e);
        },
    };
    let ghost all = placed + wide_cells(singles@);
    if data_ptr < 0 || data_ptr as u128 + 8 * (nnz as u128) > total as u128 {
        return Err(ErrorKind::Io);
    }
    if rowvec.len() as u128 + singles.len() as u128 != nnz as u128 {
        return Err(ErrorKind::Consistency);
    }
    let placed_inside = all_inside(&rowvec, &colvec, nrows as usize, ncols as usize);
    let singles_inside = wide_inside(&singles, nrows as i64, ncols as i64);
    proof {
        if placed_inside && singles_inside {
            assert forall|m: int| 0 <= m < all.len() implies 0 <= (#[trigger] all[m]).0 < nrows
                && 0 <= all[m].1 < ncols by {
                if m < placed.len() {
                    assert(all[m] == placed[m]);
                } else {
                    assert(all[m] == wide_cells(singles@)[m - placed.len()]);
                }
            }
        }
        if cells_inside(all, nrows as int, ncols as int) {
            assert forall|m: int| 0 <= m < placed.len() implies 0 <= (#[trigger] placed[m]).0
                < nrows && 0 <= placed[m].1 < ncols by {
                assert(all[m] == placed[m]);
            }
            assert forall|m: int| 0 <= m < singles@.len() implies 0 <= (#[trigger] wide_cells(
                singles@,
            )[m]).0 < nrows && 0 <= wide_cells(singles@)[m].1 < ncols by {
                assert(all[placed.len() + m] == wide_cells(singles@)[m]);
            }
        }
    }
    if !placed_inside || !singles_inside {
        return Err(ErrorKind::Consistency);
    }
    proof {
        assert forall|m: int| 0 <= m < singles@.len() implies 0 <= (#[trigger] singles@[m]).0
            <= usize::MAX && 0 <= singles@[m].1 <= usize::MAX by {
            let cell = wide_cells(singles@)[m];
            assert(0 <= cell.0 < nrows && 0 <= cell.1 < ncols);
        }
    }
    append_singles(&mut rowvec, &mut colvec, &singles);
    let values = read_u64s(input, data_ptr as usize, nnz as usize);
    proof {
        assert(zip_cells(rowvec@, colvec@) == all);
    }
    let made = SpfMatrix {
        nrows: nrows as usize,
        ncols: ncols as usize,
        rows: rowvec,
        cols: colvec,
        values,
    };
    proof {
        assert(made@.cells =~= all);
    }
    Ok(made)
}

/// Decodes a file as [`convert_spf`] does. This entry serves callers that
/// time reading and decoding apart: it works on bytes that are already in
/// memory.
pub fn convert_spf_for_timing(input: &[u8]) -> (out: Result<SpfMatrix, ErrorKind>)
    ensures
        match out {
            Ok(m) => decode(input@) == Ok::<MatrixView, ErrorKind>(m@) && m.rows@.len()
                == m.cols@.len(),
            Err(e) => decode(input@) == Err::<MatrixView, ErrorKind>(e),
        },
{
    convert_spf(input)
}

} // verus!
