//! The inventory of shapes and placed pieces, as sequences of entries: what
//! it means for one to be consistent, and the cells that it stands for.

use vstd::prelude::*;
use crate::ordered::{distinct_keys, has_key};
use crate::utils::{axes, nested_ok, order_of, MetaPattern, MetaPatternPiece, Pattern};

verus! {

/// The id under which the single points are kept.
pub const SINGLE: i32 = -1;

/// The shape of a single point.
pub open spec fn single_shape() -> MetaPattern {
    ((1i32, 0i32, 0i32), 1i32, None)
}

/// The shapes are consistent: no id stands twice, and the order recorded
/// for each shape is the depth of its chain of inner shapes.
pub open spec fn shapes_ok(pats: Seq<(i32, MetaPattern)>) -> bool {
    &&& distinct_keys(pats)
    &&& forall|k: int|
        0 <= k < pats.len() ==> nested_ok(pats, (#[trigger] pats[k]).0, pats[k].1.1 as int)
}

/// The pieces are consistent with the shapes: no origin stands twice and
/// every piece names a shape that is recorded.
pub open spec fn pieces_ok(pats: Seq<(i32, MetaPattern)>, pieces: Seq<(MetaPatternPiece, i32)>) -> bool {
    &&& distinct_keys(pieces)
    &&& forall|k: int| 0 <= k < pieces.len() ==> has_key(pats, (#[trigger] pieces[k]).1)
}

/// The single points stand behind all other pieces.
pub open spec fn singles_last(pieces: Seq<(MetaPatternPiece, i32)>) -> bool {
    forall|a: int, b: int|
        0 <= a < b < pieces.len() && (#[trigger] pieces[a]).1 == SINGLE ==> (#[trigger] pieces[b]).1
            == SINGLE
}

/// The pieces that are single points (`singles`) or those that are not, in
/// their order.
pub open spec fn select(pieces: Seq<(MetaPatternPiece, i32)>, singles: bool) -> Seq<
    (MetaPatternPiece, i32),
>
    decreases pieces.len(),
{
    if pieces.len() == 0 {
        pieces
    } else if (pieces.last().1 == SINGLE) == singles {
        select(pieces.drop_last(), singles).push(pieces.last())
    } else {
        select(pieces.drop_last(), singles)
    }
}

/// The cells of a nested shape placed at `(row, col)`, in the order in which
/// its values are stored: the outermost axis varies slowest.
pub open spec fn shape_cells(ax: Seq<Pattern>, row: int, col: int) -> Seq<(int, int)>
    decreases ax.len(), 1int, 0int,
{
    if ax.len() == 0 {
        seq![(row, col)]
    } else {
        axis_cells(ax, row, col, ax[0].0 as int)
    }
}

/// The cells of the first `upto` repetitions along the outermost axis.
pub open spec fn axis_cells(ax: Seq<Pattern>, row: int, col: int, upto: int) -> Seq<(int, int)>
    decreases ax.len(), 0int, upto,
{
    if ax.len() == 0 || upto <= 0 {
        Seq::empty()
    } else {
        axis_cells(ax, row, col, upto - 1) + shape_cells(
            ax.skip(1),
            row + (upto - 1) * ax[0].1,
            col + (upto - 1) * ax[0].2,
        )
    }
}

/// The number of cells of a nested shape: the product of the lengths of its
/// axes.
pub open spec fn shape_size(ax: Seq<Pattern>) -> int
    decreases ax.len(),
{
    if ax.len() == 0 {
        1
    } else {
        ax[0].0 * shape_size(ax.skip(1))
    }
}

/// The cells of the piece at `origin` with shape `id`.
pub open spec fn piece_cells(pats: Seq<(i32, MetaPattern)>, origin: MetaPatternPiece, id: i32) -> Seq<
    (int, int),
> {
    shape_cells(axes(pats, id, order_of(pats, id)), origin.0 as int, origin.1 as int)
}

/// The cells of the first `upto` pieces, piece after piece.
pub open spec fn inventory_cells(
    pats: Seq<(i32, MetaPattern)>,
    pieces: Seq<(MetaPatternPiece, i32)>,
    upto: int,
) -> Seq<(int, int)>
    decreases upto,
{
    if upto <= 0 {
        Seq::empty()
    } else {
        inventory_cells(pats, pieces, upto - 1) + piece_cells(
            pats,
            pieces[upto - 1].0,
            pieces[upto - 1].1,
        )
    }
}

/// A nested shape with axes of at least one cell has as many cells as the
/// product of their lengths, at least one.
pub proof fn lemma_shape_size(ax: Seq<Pattern>, row: int, col: int)
    requires
        forall|k: int| 0 <= k < ax.len() ==> (#[trigger] ax[k]).0 >= 1,
    ensures
        shape_cells(ax, row, col).len() == shape_size(ax),
        shape_size(ax) >= 1,
    decreases ax.len(), 1int, 0int,
{
    if ax.len() > 0 {
        lemma_axis_size(ax, row, col, ax[0].0 as int);
        lemma_shape_size(ax.skip(1), 0, 0);
        assert(ax[0].0 * shape_size(ax.skip(1)) >= 1) by (nonlinear_arith)
            requires
                ax[0].0 >= 1,
                shape_size(ax.skip(1)) >= 1,
        ;
    }
}

/// The first repetitions of the outermost axis hold as many cells each as
/// the inner shape has.
pub proof fn lemma_axis_size(ax: Seq<Pattern>, row: int, col: int, upto: int)
    requires
        ax.len() > 0,
        0 <= upto,
        forall|k: int| 0 <= k < ax.len() ==> (#[trigger] ax[k]).0 >= 1,
    ensures
        axis_cells(ax, row, col, upto).len() == upto * shape_size(ax.skip(1)),
    decreases ax.len(), 0int, upto,
{
    let inner = shape_size(ax.skip(1));
    if upto > 0 {
        lemma_axis_size(ax, row, col, upto - 1);
        assert forall|k: int| 0 <= k < ax.skip(1).len() implies (#[trigger] ax.skip(1)[k]).0
            >= 1 by {
            assert(ax[k + 1].0 >= 1);
        }
        lemma_shape_size(ax.skip(1), row + (upto - 1) * ax[0].1, col + (upto - 1) * ax[0].2);
        assert((upto - 1) * inner + inner == upto * inner) by (nonlinear_arith);
    } else {
        assert(0 * inner == 0) by (nonlinear_arith);
    }
}

} // verus!
