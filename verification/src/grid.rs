//! Sparse grids: compressed-row matrices whose stored positions are looked up
//! and updated in place.
//!
//! The storage itself is `sprs::CsMat`. This module gives it a mathematical
//! model, the sequence of stored entries in row-major order, and states over
//! that model what each of the operations used here does. Those statements are
//! taken from the source of `sprs` and are not proved.

use vstd::prelude::*;
use sprs::{CsMat, TriMat};

verus! {

/// A stored entry: row, column, value.
pub type Entry<V> = (usize, usize, V);

/// A stored entry of a boolean grid.
pub type Cell = (usize, usize, bool);

/// Row-major order on positions.
pub open spec fn row_major_before(r1: int, c1: int, r2: int, c2: int) -> bool {
    r1 < r2 || (r1 == r2 && c1 < c2)
}

/// The entries are in strictly increasing row-major order, so no position
/// is stored twice.
pub open spec fn row_major_sorted<V>(entries: Seq<Entry<V>>) -> bool {
    forall|a: int, b: int|
        #![trigger entries[a], entries[b]]
        0 <= a < b < entries.len() ==> row_major_before(
            entries[a].0 as int,
            entries[a].1 as int,
            entries[b].0 as int,
            entries[b].1 as int,
        )
}

/// Some entry is stored at `(row, col)`.
pub open spec fn has_entry<V>(entries: Seq<Entry<V>>, row: int, col: int) -> bool {
    exists|k: int| 0 <= k < entries.len() && #[trigger] entries[k].0 == row && entries[k].1 == col
}

/// The value `val` is stored at `(row, col)`.
pub open spec fn entry_is<V>(entries: Seq<Entry<V>>, row: int, col: int, val: V) -> bool {
    exists|k: int|
        0 <= k < entries.len() && #[trigger] entries[k].0 == row && entries[k].1 == col
            && entries[k].2 == val
}

/// Every stored position lies inside `nrows x ncols`.
pub open spec fn within<V>(entries: Seq<Entry<V>>, nrows: int, ncols: int) -> bool {
    forall|k: int|
        0 <= k < entries.len() ==> (#[trigger] entries[k]).0 < nrows && entries[k].1 < ncols
}

/// What storing `val` at `(row, col)` does to row-major sorted entries: an
/// entry already at that position has its value replaced, otherwise the new
/// entry goes in front of the first entry that lies behind it.
pub open spec fn insert_entry<V>(entries: Seq<Entry<V>>, row: usize, col: usize, val: V) -> Seq<
    Entry<V>,
>
    decreases entries.len(),
{
    if entries.len() == 0 {
        seq![(row, col, val)]
    } else if entries[0].0 == row && entries[0].1 == col {
        seq![(row, col, val)] + entries.skip(1)
    } else if row_major_before(row as int, col as int, entries[0].0 as int, entries[0].1 as int) {
        seq![(row, col, val)] + entries
    } else {
        seq![entries[0]] + insert_entry(entries.skip(1), row, col, val)
    }
}

/// The entries with the value at `(row, col)` replaced by `val`.
pub open spec fn set_entry<V>(entries: Seq<Entry<V>>, row: usize, col: usize, val: V) -> Seq<
    Entry<V>,
> {
    Seq::new(
        entries.len(),
        |k: int|
            if entries[k].0 == row && entries[k].1 == col {
                (row, col, val)
            } else {
                entries[k]
            },
    )
}

/// The shape after an entry was stored at `(row, col)`: the grid grows to
/// hold the position.
pub open spec fn grown_shape(shape: (usize, usize), row: usize, col: usize) -> (usize, usize) {
    (
        if row >= shape.0 {
            (row + 1) as usize
        } else {
            shape.0
        },
        if col >= shape.1 {
            (col + 1) as usize
        } else {
            shape.1
        },
    )
}

/// Storing an entry keeps the row-major order, adds the position and
/// changes no other entry.
pub proof fn lemma_insert_entry<V>(entries: Seq<Entry<V>>, row: usize, col: usize, val: V)
    requires
        row_major_sorted(entries),
    ensures
        row_major_sorted(insert_entry(entries, row, col, val)),
        entry_is(insert_entry(entries, row, col, val), row as int, col as int, val),
        forall|r: int, c: int, v: V|
            !(r == row && c == col) ==> (entry_is(insert_entry(entries, row, col, val), r, c, v)
                <==> entry_is(entries, r, c, v)),
        forall|r: int, c: int|
            has_entry(insert_entry(entries, row, col, val), r, c) <==> (has_entry(entries, r, c)
                || (r == row && c == col)),
        insert_entry(entries, row, col, val).len() == entries.len() + (if has_entry(
            entries,
            row as int,
            col as int,
        ) {
            0int
        } else {
            1int
        }),
    decreases entries.len(),
{
    let out = insert_entry(entries, row, col, val);
    if entries.len() == 0 {
        assert(out[0] == (row, col, val));
        assert(out[0].0 == row && out[0].1 == col && out[0].2 == val);
        assert(entry_is(out, row as int, col as int, val));
        assert forall|r: int, c: int|
            has_entry(out, r, c) <==> (has_entry(entries, r, c) || (r == row && c == col)) by {
            if r == row && c == col {
                assert(out[0].0 == r && out[0].1 == c);
            }
        }
    } else if entries[0].0 == row && entries[0].1 == col {
        assert(out[0] == (row, col, val));
        assert(out[0].0 == row && out[0].1 == col && out[0].2 == val);
        assert(entry_is(out, row as int, col as int, val));
        assert(entries[0].0 == row && entries[0].1 == col);
        assert forall|k: int| 1 <= k < out.len() implies out[k] == entries[k] by {}
        assert forall|r: int, c: int, v: V| !(r == row && c == col) implies (entry_is(out, r, c, v)
            <==> entry_is(entries, r, c, v)) by {
            if entry_is(out, r, c, v) {
                let k = choose|k: int|
                    0 <= k < out.len() && #[trigger] out[k].0 == r && out[k].1 == c && out[k].2
                        == v;
                assert(entries[k].0 == r && entries[k].1 == c && entries[k].2 == v);
            }
            if entry_is(entries, r, c, v) {
                let k = choose|k: int|
                    0 <= k < entries.len() && #[trigger] entries[k].0 == r && entries[k].1 == c
                        && entries[k].2 == v;
                assert(out[k].0 == r && out[k].1 == c && out[k].2 == v);
            }
        }
        assert forall|r: int, c: int|
            has_entry(out, r, c) <==> (has_entry(entries, r, c) || (r == row && c == col)) by {
            if has_entry(out, r, c) {
                let k = choose|k: int| 0 <= k < out.len() && #[trigger] out[k].0 == r && out[k].1 == c;
                assert(entries[k].0 == r && entries[k].1 == c);
            }
            if has_entry(entries, r, c) {
                let k = choose|k: int|
                    0 <= k < entries.len() && #[trigger] entries[k].0 == r && entries[k].1 == c;
                assert(out[k].0 == r && out[k].1 == c);
            }
            if r == row && c == col {
                assert(out[0].0 == r && out[0].1 == c);
            }
        }
        assert forall|a: int, b: int| 0 <= a < b < out.len() implies row_major_before(
            out[a].0 as int,
            out[a].1 as int,
            out[b].0 as int,
            out[b].1 as int,
        ) by {
            assert(row_major_before(
                entries[a].0 as int,
                entries[a].1 as int,
                entries[b].0 as int,
                entries[b].1 as int,
            ));
        }
    } else if row_major_before(row as int, col as int, entries[0].0 as int, entries[0].1 as int) {
        assert(out[0] == (row, col, val));
        assert(out[0].0 == row && out[0].1 == col && out[0].2 == val);
        assert(entry_is(out, row as int, col as int, val));
        assert forall|k: int| 1 <= k < out.len() implies out[k] == entries[k - 1] by {}
        assert forall|a: int, b: int| 0 <= a < b < out.len() implies row_major_before(
            out[a].0 as int,
            out[a].1 as int,
            out[b].0 as int,
            out[b].1 as int,
        ) by {
            if a == 0 {
                if b > 1 {
                    assert(row_major_before(
                        entries[0].0 as int,
                        entries[0].1 as int,
                        entries[b - 1].0 as int,
                        entries[b - 1].1 as int,
                    ));
                }
            } else {
                assert(row_major_before(
                    entries[a - 1].0 as int,
                    entries[a - 1].1 as int,
                    entries[b - 1].0 as int,
                    entries[b - 1].1 as int,
                ));
            }
        }
        assert(!has_entry(entries, row as int, col as int)) by {
            if has_entry(entries, row as int, col as int) {
                let k = choose|k: int|
                    0 <= k < entries.len() && #[trigger] entries[k].0 == row && entries[k].1
                        == col;
                if k > 0 {
                    assert(row_major_before(
                        entries[0].0 as int,
                        entries[0].1 as int,
                        entries[k].0 as int,
                        entries[k].1 as int,
                    ));
                }
            }
        }
        assert forall|r: int, c: int, v: V| !(r == row && c == col) implies (entry_is(out, r, c, v)
            <==> entry_is(entries, r, c, v)) by {
            if entry_is(out, r, c, v) {
                let k = choose|k: int|
                    0 <= k < out.len() && #[trigger] out[k].0 == r && out[k].1 == c && out[k].2
                        == v;
                assert(entries[k - 1].0 == r && entries[k - 1].1 == c && entries[k - 1].2 == v);
            }
            if entry_is(entries, r, c, v) {
                let k = choose|k: int|
                    0 <= k < entries.len() && #[trigger] entries[k].0 == r && entries[k].1 == c
                        && entries[k].2 == v;
                assert(out[k + 1].0 == r && out[k + 1].1 == c && out[k + 1].2 == v);
            }
        }
        assert forall|r: int, c: int|
            has_entry(out, r, c) <==> (has_entry(entries, r, c) || (r == row && c == col)) by {
            if has_entry(out, r, c) {
                let k = choose|k: int| 0 <= k < out.len() && #[trigger] out[k].0 == r && out[k].1 == c;
                if k > 0 {
                    assert(entries[k - 1].0 == r && entries[k - 1].1 == c);
                }
            }
            if has_entry(entries, r, c) {
                let k = choose|k: int|
                    0 <= k < entries.len() && #[trigger] entries[k].0 == r && entries[k].1 == c;
                assert(out[k + 1].0 == r && out[k + 1].1 == c);
            }
            if r == row && c == col {
                assert(out[0].0 == r && out[0].1 == c);
            }
        }
    } else {
        let rest = entries.skip(1);
        let sub = insert_entry(rest, row, col, val);
        assert forall|a: int, b: int| 0 <= a < b < rest.len() implies row_major_before(
            rest[a].0 as int,
            rest[a].1 as int,
            rest[b].0 as int,
            rest[b].1 as int,
        ) by {
            assert(row_major_before(
                entries[a + 1].0 as int,
                entries[a + 1].1 as int,
                entries[b + 1].0 as int,
                entries[b + 1].1 as int,
            ));
        }
        lemma_insert_entry(rest, row, col, val);
        assert(out[0] == entries[0]);
        assert forall|k: int| 1 <= k < out.len() implies out[k] == sub[k - 1] by {}
        // every entry of `sub` lies behind `entries[0]`
        assert forall|k: int| 0 <= k < sub.len() implies row_major_before(
            entries[0].0 as int,
            entries[0].1 as int,
            (#[trigger] sub[k]).0 as int,
            sub[k].1 as int,
        ) by {
            let r = sub[k].0 as int;
            let c = sub[k].1 as int;
            assert(sub[k].0 == r && sub[k].1 == c);
            assert(has_entry(sub, r, c));
            if !(r == row && c == col) {
                assert(has_entry(rest, r, c));
                let m = choose|m: int|
                    0 <= m < rest.len() && #[trigger] rest[m].0 == r && rest[m].1 == c;
                assert(row_major_before(
                    entries[0].0 as int,
                    entries[0].1 as int,
                    entries[m + 1].0 as int,
                    entries[m + 1].1 as int,
                ));
            }
        }
        assert forall|a: int, b: int| 0 <= a < b < out.len() implies row_major_before(
            out[a].0 as int,
            out[a].1 as int,
            out[b].0 as int,
            out[b].1 as int,
        ) by {
            if a == 0 {
                assert(out[b] == sub[b - 1]);
            } else {
                assert(row_major_before(
                    sub[a - 1].0 as int,
                    sub[a - 1].1 as int,
                    sub[b - 1].0 as int,
                    sub[b - 1].1 as int,
                ));
            }
        }
        assert(entry_is(out, row as int, col as int, val)) by {
            let k = choose|k: int|
                0 <= k < sub.len() && #[trigger] sub[k].0 == row && sub[k].1 == col && sub[k].2
                    == val;
            assert(out[k + 1].0 == row && out[k + 1].1 == col && out[k + 1].2 == val);
        }
        assert forall|r: int, c: int, v: V| !(r == row && c == col) implies (entry_is(out, r, c, v)
            <==> entry_is(entries, r, c, v)) by {
            if entry_is(out, r, c, v) {
                let k = choose|k: int|
                    0 <= k < out.len() && #[trigger] out[k].0 == r && out[k].1 == c && out[k].2
                        == v;
                if k == 0 {
                    assert(entries[0].0 == r && entries[0].1 == c && entries[0].2 == v);
                } else {
                    assert(sub[k - 1].0 == r && sub[k - 1].1 == c && sub[k - 1].2 == v);
                    assert(entry_is(sub, r, c, v));
                    assert(entry_is(rest, r, c, v));
                    let m = choose|m: int|
                        0 <= m < rest.len() && #[trigger] rest[m].0 == r && rest[m].1 == c
                            && rest[m].2 == v;
                    assert(entries[m + 1].0 == r && entries[m + 1].1 == c && entries[m + 1].2
                        == v);
                }
            }
            if entry_is(entries, r, c, v) {
                let k = choose|k: int|
                    0 <= k < entries.len() && #[trigger] entries[k].0 == r && entries[k].1 == c
                        && entries[k].2 == v;
                if k == 0 {
                    assert(out[0].0 == r && out[0].1 == c && out[0].2 == v);
                } else {
                    assert(rest[k - 1].0 == r && rest[k - 1].1 == c && rest[k - 1].2 == v);
                    assert(entry_is(rest, r, c, v));
                    assert(entry_is(sub, r, c, v));
                    let m = choose|m: int|
                        0 <= m < sub.len() && #[trigger] sub[m].0 == r && sub[m].1 == c && sub[m].2
                            == v;
                    assert(out[m + 1].0 == r && out[m + 1].1 == c && out[m + 1].2 == v);
                }
            }
        }
        assert forall|r: int, c: int|
            has_entry(out, r, c) <==> (has_entry(entries, r, c) || (r == row && c == col)) by {
            if has_entry(out, r, c) {
                let k = choose|k: int| 0 <= k < out.len() && #[trigger] out[k].0 == r && out[k].1 == c;
                if k == 0 {
                    assert(entries[0].0 == r && entries[0].1 == c);
                } else {
                    assert(sub[k - 1].0 == r && sub[k - 1].1 == c);
                    assert(has_entry(sub, r, c));
                    if has_entry(rest, r, c) {
                        let m = choose|m: int|
                            0 <= m < rest.len() && #[trigger] rest[m].0 == r && rest[m].1 == c;
                        assert(entries[m + 1].0 == r && entries[m + 1].1 == c);
                    }
                }
            }
            if has_entry(entries, r, c) {
                let k = choose|k: int|
                    0 <= k < entries.len() && #[trigger] entries[k].0 == r && entries[k].1 == c;
                if k == 0 {
                    assert(out[0].0 == r && out[0].1 == c);
                } else {
                    assert(rest[k - 1].0 == r && rest[k - 1].1 == c);
                    assert(has_entry(rest, r, c));
                    assert(has_entry(sub, r, c));
                    let m = choose|m: int|
                        0 <= m < sub.len() && #[trigger] sub[m].0 == r && sub[m].1 == c;
                    assert(out[m + 1].0 == r && out[m + 1].1 == c);
                }
            }
            if r == row && c == col {
                assert(has_entry(sub, r, c));
                let m = choose|m: int|
                    0 <= m < sub.len() && #[trigger] sub[m].0 == r && sub[m].1 == c;
                assert(out[m + 1].0 == r && out[m + 1].1 == c);
            }
        }
        // the length
        if has_entry(entries, row as int, col as int) {
            let k = choose|k: int|
                0 <= k < entries.len() && #[trigger] entries[k].0 == row && entries[k].1 == col;
            assert(rest[k - 1].0 == row && rest[k - 1].1 == col);
            assert(has_entry(rest, row as int, col as int));
        } else {
            if has_entry(rest, row as int, col as int) {
                let m = choose|m: int|
                    0 <= m < rest.len() && #[trigger] rest[m].0 == row && rest[m].1 == col;
                assert(entries[m + 1].0 == row && entries[m + 1].1 == col);
            }
        }
    }
}

/// In sorted entries a position holds one value only.
pub proof fn lemma_entry_unique<V>(entries: Seq<Entry<V>>, a: int, b: int)
    requires
        row_major_sorted(entries),
        0 <= a < entries.len(),
        0 <= b < entries.len(),
        entries[a].0 == entries[b].0,
        entries[a].1 == entries[b].1,
    ensures
        a == b,
{
    if a < b {
        assert(row_major_before(
            entries[a].0 as int,
            entries[a].1 as int,
            entries[b].0 as int,
            entries[b].1 as int,
        ));
    }
    if b < a {
        assert(row_major_before(
            entries[b].0 as int,
            entries[b].1 as int,
            entries[a].0 as int,
            entries[a].1 as int,
        ));
    }
}

/// The cells of a fresh matrix: every coordinate stored once, free, in
/// row-major order.
pub open spec fn stored_cells(coords: Seq<(usize, usize)>) -> Seq<Cell>
    decreases coords.len(),
{
    if coords.len() == 0 {
        Seq::empty()
    } else {
        insert_entry(stored_cells(coords.drop_last()), coords.last().0, coords.last().1, false)
    }
}

/// Every coordinate lies inside `nrows x ncols`.
pub open spec fn coords_within(coords: Seq<(usize, usize)>, nrows: int, ncols: int) -> bool {
    forall|k: int| 0 <= k < coords.len() ==> (#[trigger] coords[k]).0 < nrows && coords[k].1 < ncols
}

/// No cell is claimed.
pub open spec fn all_free(cells: Seq<Cell>) -> bool {
    forall|k: int| 0 <= k < cells.len() ==> !(#[trigger] cells[k]).2
}

/// The cells of a fresh matrix are sorted, free and inside the matrix, and
/// they are the coordinates given.
pub proof fn lemma_stored_cells(coords: Seq<(usize, usize)>, nrows: int, ncols: int)
    requires
        coords_within(coords, nrows, ncols),
    ensures
        row_major_sorted(stored_cells(coords)),
        within(stored_cells(coords), nrows, ncols),
        all_free(stored_cells(coords)),
        forall|r: int, c: int|
            has_entry(stored_cells(coords), r, c) <==> exists|k: int|
                0 <= k < coords.len() && (#[trigger] coords[k]).0 == r && coords[k].1 == c,
        stored_cells(coords).len() <= coords.len(),
    decreases coords.len(),
{
    let out = stored_cells(coords);
    if coords.len() == 0 {
    } else {
        let front = coords.drop_last();
        let prev = stored_cells(front);
        let (row, col) = coords.last();
        lemma_stored_cells(front, nrows, ncols);
        lemma_insert_entry(prev, row, col, false);
        assert forall|k: int| 0 <= k < out.len() implies !(#[trigger] out[k]).2 && out[k].0 < nrows
            && out[k].1 < ncols by {
            let r = out[k].0 as int;
            let c = out[k].1 as int;
            let v = out[k].2;
            assert(out[k].0 == r && out[k].1 == c && out[k].2 == v);
            assert(entry_is(out, r, c, v));
            if r == row && c == col {
                let a = choose|a: int|
                    0 <= a < out.len() && #[trigger] out[a].0 == row && out[a].1 == col
                        && out[a].2 == false;
                lemma_entry_unique(out, a, k);
                assert(coords[coords.len() - 1].0 < nrows);
            } else {
                assert(entry_is(prev, r, c, v));
                let m = choose|m: int|
                    0 <= m < prev.len() && #[trigger] prev[m].0 == r && prev[m].1 == c
                        && prev[m].2 == v;
                assert(!prev[m].2);
            }
        }
        assert forall|r: int, c: int|
            has_entry(out, r, c) <==> exists|k: int|
                0 <= k < coords.len() && (#[trigger] coords[k]).0 == r && coords[k].1 == c by {
            if has_entry(out, r, c) {
                if r == row && c == col {
                    assert(coords[coords.len() - 1].0 == r && coords[coords.len() - 1].1 == c);
                } else {
                    assert(has_entry(prev, r, c));
                    let k = choose|k: int|
                        0 <= k < front.len() && (#[trigger] front[k]).0 == r && front[k].1 == c;
                    assert(coords[k].0 == r && coords[k].1 == c);
                }
            }
            if exists|k: int|
                0 <= k < coords.len() && (#[trigger] coords[k]).0 == r && coords[k].1 == c {
                let k = choose|k: int|
                    0 <= k < coords.len() && (#[trigger] coords[k]).0 == r && coords[k].1 == c;
                if k < coords.len() - 1 {
                    assert(front[k].0 == r && front[k].1 == c);
                    assert(has_entry(prev, r, c));
                }
            }
        }
    }
}

/// A sparse boolean grid in compressed-row storage.
///
/// Holds a `sprs::CsMat<bool>`, which Verus cannot look into: what it stores
/// is named by [`bitmap_cells`] and [`bitmap_shape`].
#[verifier::external_body]
pub struct Bitmap {
    inner: CsMat<bool>,
}

/// The entries that a bitmap stores, in the order in which it walks them.
pub uninterp spec fn bitmap_cells(m: Bitmap) -> Seq<(usize, usize, bool)>;

/// The number of rows and of columns of a bitmap.
pub uninterp spec fn bitmap_shape(m: Bitmap) -> (usize, usize);

/// `CsMat::zero`: a compressed-row matrix of the given shape that stores
/// nothing. The row pointer array has `nrows + 1` entries, which is why
/// `nrows` must be below the largest `usize`.
#[verifier::external_body]
pub(crate) fn bitmap_zero(nrows: usize, ncols: usize) -> (m: Bitmap)
    requires
        nrows < usize::MAX,
    ensures
        bitmap_cells(m) == Seq::<Cell>::empty(),
        bitmap_shape(m) == (nrows, ncols),
{
    Bitmap { inner: CsMat::zero((nrows, ncols)) }
}

/// `CsMat::insert`: stores `val` at `(row, col)`. A value already stored
/// there is overwritten; otherwise the entry is placed by a search in its
/// row, which keeps the row-major order, and the matrix grows where the
/// position lies outside it.
#[verifier::external_body]
pub(crate) fn bitmap_insert(m: &mut Bitmap, row: usize, col: usize, val: bool)
    requires
        row < usize::MAX,
        col < usize::MAX,
    ensures
        bitmap_cells(*final(m)) == insert_entry(bitmap_cells(*old(m)), row, col, val),
        bitmap_shape(*final(m)) == grown_shape(bitmap_shape(*old(m)), row, col),
{
    m.inner.insert(row, col, val)
}

/// `CsMat::get`: the value stored at `(row, col)`, `None` where nothing is
/// stored there, also for a position outside the matrix.
#[verifier::external_body]
pub(crate) fn bitmap_get(m: &Bitmap, row: usize, col: usize) -> (v: Option<bool>)
    ensures
        match v {
            Some(b) => entry_is(bitmap_cells(*m), row as int, col as int, b),
            None => !has_entry(bitmap_cells(*m), row as int, col as int),
        },
{
    m.inner.get(row, col).copied()
}

/// `CsMat::get_mut`, written through: replaces the value stored at
/// `(row, col)`. The position must be stored; no entry moves.
#[verifier::external_body]
pub(crate) fn bitmap_set(m: &mut Bitmap, row: usize, col: usize, val: bool)
    requires
        has_entry(bitmap_cells(*old(m)), row as int, col as int),
    ensures
        bitmap_cells(*final(m)) == set_entry(bitmap_cells(*old(m)), row, col, val),
        bitmap_shape(*final(m)) == bitmap_shape(*old(m)),
{
    *m.inner.get_mut(row, col).unwrap() = val;
}

/// `CsMat::iter`: the stored entries in storage order.
#[verifier::external_body]
pub(crate) fn bitmap_entries(m: &Bitmap) -> (cells: Vec<(usize, usize, bool)>)
    ensures
        cells@ == bitmap_cells(*m),
{
    m.inner.iter().map(|(v, (r, c))| (r, c, *v)).collect()
}

/// `CsMat::rows`.
#[verifier::external_body]
pub(crate) fn bitmap_rows(m: &Bitmap) -> (n: usize)
    ensures
        n == bitmap_shape(*m).0,
{
    m.inner.rows()
}

/// `CsMat::cols`.
#[verifier::external_body]
pub(crate) fn bitmap_cols(m: &Bitmap) -> (n: usize)
    ensures
        n == bitmap_shape(*m).1,
{
    m.inner.cols()
}

/// `CsMat::nnz`: the number of stored entries.
#[verifier::external_body]
pub(crate) fn bitmap_nnz(m: &Bitmap) -> (n: usize)
    ensures
        n == bitmap_cells(*m).len(),
{
    m.inner.nnz()
}

/// A sparse grid of 64-bit values in compressed-row storage: the values of
/// a matrix, each held as the bit pattern of its floating-point number.
///
/// Holds a `sprs::CsMat<u64>`, which Verus cannot look into: what it stores
/// is named by [`value_cells`].
#[verifier::external_body]
pub struct ValueGrid {
    inner: CsMat<u64>,
}

/// The entries that a value grid stores, in the order in which it walks
/// them.
pub uninterp spec fn value_cells(m: ValueGrid) -> Seq<(usize, usize, u64)>;

/// `CsMat::zero`: a compressed-row matrix of the given shape that stores
/// nothing.
#[verifier::external_body]
pub(crate) fn values_zero(nrows: usize, ncols: usize) -> (m: ValueGrid)
    requires
        nrows < usize::MAX,
    ensures
        value_cells(m) == Seq::<(usize, usize, u64)>::empty(),
{
    ValueGrid { inner: CsMat::zero((nrows, ncols)) }
}

/// `CsMat::insert`: stores `val` at `(row, col)`, over a value already
/// stored there, at the place that keeps the row-major order.
#[verifier::external_body]
pub(crate) fn values_insert(m: &mut ValueGrid, row: usize, col: usize, val: u64)
    requires
        row < usize::MAX,
        col < usize::MAX,
    ensures
        value_cells(*final(m)) == insert_entry(value_cells(*old(m)), row, col, val),
{
    m.inner.insert(row, col, val)
}

/// `CsMat::get`: the value stored at `(row, col)`, `None` where nothing is
/// stored there.
#[verifier::external_body]
pub(crate) fn values_get(m: &ValueGrid, row: usize, col: usize) -> (v: Option<u64>)
    ensures
        match v {
            Some(b) => entry_is(value_cells(*m), row as int, col as int, b),
            None => !has_entry(value_cells(*m), row as int, col as int),
        },
{
    m.inner.get(row, col).copied()
}

/// `CsMat::nnz`: the number of stored entries.
#[verifier::external_body]
pub(crate) fn values_nnz(m: &ValueGrid) -> (n: usize)
    ensures
        n == value_cells(*m).len(),
{
    m.inner.nnz()
}

/// The entries after the first `upto` triplets were stored, one after the
/// other; a later triplet at a position replaces an earlier one.
pub open spec fn stored_values(triplets: Seq<(usize, usize, u64)>, upto: int) -> Seq<
    (usize, usize, u64),
>
    decreases upto,
{
    if upto <= 0 {
        Seq::empty()
    } else {
        insert_entry(
            stored_values(triplets, upto - 1),
            triplets[upto - 1].0,
            triplets[upto - 1].1,
            triplets[upto - 1].2,
        )
    }
}

/// Stored values are in row-major order.
pub proof fn lemma_stored_values(triplets: Seq<(usize, usize, u64)>, upto: int)
    requires
        upto <= triplets.len(),
    ensures
        row_major_sorted(stored_values(triplets, upto)),
    decreases upto,
{
    if upto > 0 {
        lemma_stored_values(triplets, upto - 1);
        lemma_insert_entry(
            stored_values(triplets, upto - 1),
            triplets[upto - 1].0,
            triplets[upto - 1].1,
            triplets[upto - 1].2,
        );
    }
}

/// The value at a position, 0 where none is stored.
pub open spec fn value_at(cells: Seq<(usize, usize, u64)>, row: int, col: int) -> u64 {
    if has_entry(cells, row, col) {
        cells[choose|k: int| 0 <= k < cells.len() && #[trigger] cells[k].0 == row && cells[k].1 == col].2
    } else {
        0u64
    }
}

impl ValueGrid {
    /// The stored entries, in row-major order.
    pub closed spec fn cells(&self) -> Seq<(usize, usize, u64)> {
        value_cells(*self)
    }

    /// A grid of the given shape that holds the triplets. Positions at the
    /// very end of the index range are refused, since the storage keeps one
    /// entry more than there are rows.
    pub fn from_triplets(nrows: usize, ncols: usize, triplets: &Vec<(usize, usize, u64)>) -> (made:
        Option<ValueGrid>)
        ensures
            match made {
                Some(g) => {
                    &&& nrows < usize::MAX
                    &&& forall|k: int|
                        0 <= k < triplets@.len() ==> (#[trigger] triplets@[k]).0 < usize::MAX
                            && triplets@[k].1 < usize::MAX
                    &&& g.cells() == stored_values(triplets@, triplets@.len() as int)
                    &&& row_major_sorted(g.cells())
                },
                None => !(nrows < usize::MAX && forall|k: int|
                    0 <= k < triplets@.len() ==> (#[trigger] triplets@[k]).0 < usize::MAX
                        && triplets@[k].1 < usize::MAX),
            },
    {
        if nrows == usize::MAX {
            return None;
        }
        let mut grid = values_zero(nrows, ncols);
        let mut k: usize = 0;
        while k < triplets.len()
            invariant
                k <= triplets.len(),
                value_cells(grid) == stored_values(triplets@, k as int),
                forall|m: int|
                    0 <= m < k ==> (#[trigger] triplets@[m]).0 < usize::MAX && triplets@[m].1
                        < usize::MAX,
            decreases triplets.len() - k,
        {
            let (row, col, val) = triplets[k];
            if row == usize::MAX || col == usize::MAX {
                return None;
            }
            values_insert(&mut grid, row, col, val);
            k += 1;
        }
        proof {
            lemma_stored_values(triplets@, triplets@.len() as int);
        }
        Some(grid)
    }

    /// The number of stored values.
    pub fn nnz(&self) -> (n: usize)
        ensures
            n == self.cells().len(),
    {
        values_nnz(self)
    }

    /// The value stored at `(row, col)`.
    pub fn get(&self, row: usize, col: usize) -> (v: Option<u64>)
        requires
            row_major_sorted(self.cells()),
        ensures
            v is Some <==> has_entry(self.cells(), row as int, col as int),
            v matches Some(b) ==> b == value_at(self.cells(), row as int, col as int),
    {
        let v = values_get(self, row, col);
        proof {
            let cells = self.cells();
            match v {
                Some(b) => {
                    let a = choose|a: int|
                        0 <= a < cells.len() && #[trigger] cells[a].0 == row && cells[a].1 == col
                            && cells[a].2 == b;
                    assert(cells[a].0 == row && cells[a].1 == col);
                    let c = choose|k: int|
                        0 <= k < cells.len() && #[trigger] cells[k].0 == row && cells[k].1 == col;
                    lemma_entry_unique(cells, a, c);
                },
                None => {},
            }
        }
        v
    }
}

/// The number of points among the first `upto` that lie in a row before
/// `r`.
pub open spec fn rows_before(sorted: Seq<(usize, usize, bool)>, r: int, upto: int) -> int
    decreases upto,
{
    if upto <= 0 {
        0
    } else {
        rows_before(sorted, r, upto - 1) + if sorted[upto - 1].0 < r {
            1int
        } else {
            0int
        }
    }
}

/// `TriMat::from_triplets` followed by `TriMat::to_csr`, both of `sprs`: the
/// compressed-row index of a set of points. The conversion sorts the points
/// by row and then by column. It returns the row pointers, which hold on
/// entry `r` the number of points in the rows before `r`, and the columns
/// of the points in sorted order. The points must lie inside the shape and
/// be distinct.
#[verifier::external_body]
pub(crate) fn csr_of_points(nrows: usize, ncols: usize, points: &Vec<(usize, usize)>) -> (csr: (
    Vec<usize>,
    Vec<usize>,
))
    requires
        nrows < usize::MAX,
        coords_within(points@, nrows as int, ncols as int),
        points@.no_duplicates(),
    ensures
        csr.0@.len() == nrows + 1,
        forall|r: int|
            0 <= r <= nrows ==> #[trigger] csr.0@[r] == rows_before(
                stored_cells(points@),
                r,
                stored_cells(points@).len() as int,
            ),
        csr.1@.len() == stored_cells(points@).len(),
        forall|k: int| 0 <= k < csr.1@.len() ==> #[trigger] csr.1@[k] == stored_cells(points@)[k].1,
{
    let rows: Vec<usize> = points.iter().map(|p| p.0).collect();
    let cols: Vec<usize> = points.iter().map(|p| p.1).collect();
    let ones: Vec<u8> = vec![1u8; points.len()];
    let csr: CsMat<u8> = TriMat::from_triplets((nrows, ncols), rows, cols, ones).to_csr();
    (csr.proper_indptr().into_owned(), csr.indices().to_vec())
}

} // verus!
