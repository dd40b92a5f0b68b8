//! Shared types and the geometry of affine shapes.

use vstd::prelude::*;
use vstd::arithmetic::div_mod::lemma_fundamental_div_mod_converse;
use linked_hash_map::LinkedHashMap;
use crate::ordered::{lookup, pattern_entries, patterns_get};

verus! {

/// An affine line `(N, I, J)`: `N` cells stepped by `I` rows and `J` columns.
pub type Pattern = (i32, i32, i32);

/// A pattern placed at an origin `(row, col)`.
pub type Piece = (usize, usize, Pattern);

/// The polyhedral record `(U, w, c)` of a shape: the rows of `U` are the
/// normals of the inequalities `U_i . x + w_i >= 0`, and `c` holds the row and
/// column stride of each axis, outermost axis first.
pub type Uwc = (Vec<Vec<i32>>, Vec<i32>, Vec<i32>);

/// A shape record placed at an origin.
pub type OriginUwc = (usize, usize, Uwc);

/// A nested shape: its outermost axis, its order, and the id of the shape
/// that its outermost axis repeats (`None` for a plain pattern).
pub type MetaPattern = ((i32, i32, i32), i32, Option<i32>);

/// The origin of a placed nested shape.
pub type MetaPatternPiece = (usize, usize);

/// The rows of a vector of vectors, each taken by its view.
pub open spec fn rows_view<T>(v: Seq<Vec<T>>) -> Seq<Seq<T>> {
    Seq::new(v.len(), |k: int| v[k]@)
}

/// The concatenation of the rows of `rows`, in order.
pub open spec fn concat_rows<T>(rows: Seq<Seq<T>>) -> Seq<T>
    decreases rows.len(),
{
    if rows.len() == 0 {
        Seq::empty()
    } else {
        concat_rows(rows.drop_last()) + rows.last()
    }
}

/// Flattens a vector of vectors into the concatenation of its rows.
pub fn flatten<T>(nested: Vec<Vec<T>>) -> (flat: Vec<T>)
    ensures
        flat@ == concat_rows(rows_view(nested@)),
{
    let ghost rows = rows_view(nested@);
    let mut nested = nested;
    let mut flat: Vec<T> = Vec::new();
    let n = nested.len();
    let mut i: usize = 0;
    while i < n
        invariant
            i <= n,
            n == nested.len(),
            rows.len() == n,
            flat@ == concat_rows(rows.take(i as int)),
            forall|k: int| i <= k < n ==> (#[trigger] nested@[k])@ == rows[k],
        decreases n - i,
    {
        let mut row: Vec<T> = Vec::new();
        std::mem::swap(&mut row, &mut nested[i]);
        proof {
            assert(rows.take(i as int + 1).drop_last() == rows.take(i as int));
            assert(rows.take(i as int + 1).last() == rows[i as int]);
        }
        flat.append(&mut row);
        i += 1;
    }
    proof {
        assert(rows.take(n as int) == rows);
    }
    flat
}

/// The one-axis shape record of a pattern.
pub open spec fn pattern_uwc_spec(p: Pattern) -> (Seq<Seq<i32>>, Seq<i32>, Seq<i32>) {
    (seq![seq![-1i32], seq![1i32]], seq![(p.0 - 1) as i32, 0i32], seq![p.1, p.2])
}

/// The shape record of a line of `N` cells: `U = [[-1], [1]]`,
/// `w = [N - 1, 0]`, `c = [I, J]`.
pub fn pattern_to_uwc(pattern: &Pattern) -> (uwc: Uwc)
    requires
        pattern.0 >= 1,
    ensures
        (rows_view(uwc.0@), uwc.1@, uwc.2@) == pattern_uwc_spec(*pattern),
{
    let (n, i, j) = *pattern;
    let mut u: Vec<Vec<i32>> = Vec::new();
    let mut top: Vec<i32> = Vec::new();
    top.push(-1);
    let mut bottom: Vec<i32> = Vec::new();
    bottom.push(1);
    u.push(top);
    u.push(bottom);
    let mut w: Vec<i32> = Vec::new();
    w.push(n - 1);
    w.push(0);
    let mut c: Vec<i32> = Vec::new();
    c.push(i);
    c.push(j);
    proof {
        assert(u@[0]@ == seq![-1i32]);
        assert(u@[1]@ == seq![1i32]);
        assert(rows_view(u@) == seq![seq![-1i32], seq![1i32]]);
        assert(w@ == seq![(n - 1) as i32, 0i32]);
        assert(c@ == seq![i, j]);
    }
    (u, w, c)
}

/// The piece that a one-axis shape record at an origin stands for:
/// `(x, y, (w[0] + 1, c[0], c[1]))`.
pub fn orig_uwc_to_piece_1d(uwc: &OriginUwc) -> (piece: Piece)
    requires
        uwc.2.1@.len() >= 1,
        uwc.2.2@.len() >= 2,
        uwc.2.1@[0] < i32::MAX,
    ensures
        piece == (uwc.0, uwc.1, ((uwc.2.1@[0] + 1) as i32, uwc.2.2@[0], uwc.2.2@[1])),
{
    let w = &uwc.2.1;
    let c = &uwc.2.2;
    (uwc.0, uwc.1, (w[0] + 1, c[0], c[1]))
}

/// The integers `lo, lo + 1, ..., hi`, none where `hi < lo`.
pub open spec fn axis_values(lo: int, hi: int) -> Seq<i32> {
    Seq::new(if lo <= hi { (hi - lo + 1) as nat } else { 0 }, |k: int| (lo + k) as i32)
}

/// Every point of `pts` extended by every value of `vals`: the points keep
/// their order and, for one point, the values keep theirs.
pub open spec fn cross_axis(pts: Seq<Seq<i32>>, vals: Seq<i32>) -> Seq<Seq<i32>> {
    Seq::new(
        pts.len() * vals.len(),
        |k: int| pts[k / (vals.len() as int)].push(vals[k % (vals.len() as int)]),
    )
}

/// The lattice points of the box `[lo[0], hi[0]] x ... x [lo[axes-1], hi[axes-1]]`
/// in lexicographic order, the first axis varying slowest.
pub open spec fn box_points(lo: Seq<int>, hi: Seq<int>, axes: nat) -> Seq<Seq<i32>>
    decreases axes,
{
    if axes == 0 {
        seq![Seq::<i32>::empty()]
    } else {
        cross_axis(
            box_points(lo, hi, (axes - 1) as nat),
            axis_values(lo[axes - 1], hi[axes - 1]),
        )
    }
}

/// The lower bounds that the second half of `w` gives to the axes.
pub open spec fn hull_lows(w: Seq<i32>) -> Seq<int> {
    Seq::new((w.len() - w.len() / 2) as nat, |k: int| -(w[(w.len() / 2) as int + k] as int))
}

/// The upper bounds that the first half of `w` gives to the axes.
pub open spec fn hull_highs(w: Seq<i32>) -> Seq<int> {
    Seq::new(w.len() / 2, |k: int| w[k] as int)
}

/// The points of a one-axis hull: `[w[1]], ..., [w[0]]`.
pub open spec fn hull_1d_spec(w: Seq<i32>) -> Seq<Seq<i32>> {
    Seq::new(axis_values(w[1] as int, w[0] as int).len(), |k: int| seq![(w[1] + k) as i32])
}

/// The points that the hull of a hyperrectangle enumerates. A dense hull is
/// the whole box. Otherwise the last axis contributes its two extreme
/// values only, once each, also where they coincide.
pub open spec fn hull_spec(dims: nat, w: Seq<i32>, dense: bool) -> Seq<Seq<i32>> {
    if dims < 2 {
        hull_1d_spec(w)
    } else if dense {
        box_points(hull_lows(w), hull_highs(w), dims)
    } else {
        cross_axis(
            box_points(hull_lows(w), hull_highs(w), (dims - 1) as nat),
            seq![hull_lows(w)[dims - 1] as i32, hull_highs(w)[dims - 1] as i32],
        )
    }
}

/// The values `lo..=hi` as a vector.
fn axis_range(lo: i32, hi: i32) -> (vals: Vec<i32>)
    ensures
        vals@ == axis_values(lo as int, hi as int),
{
    let mut vals: Vec<i32> = Vec::new();
    let mut cur: i64 = lo as i64;
    while cur <= hi as i64
        invariant
            lo <= cur <= hi + 1 || (hi < lo && cur == lo),
            vals@.len() == cur - lo,
            forall|k: int| 0 <= k < vals@.len() ==> vals@[k] == lo + k,
        decreases hi + 1 - cur,
    {
        vals.push(cur as i32);
        cur += 1;
    }
    assert(vals@ =~= axis_values(lo as int, hi as int));
    vals
}

/// A copy of a row.
fn copy_row(row: &Vec<i32>) -> (out: Vec<i32>)
    ensures
        out@ == row@,
{
    let mut out: Vec<i32> = Vec::new();
    let mut k: usize = 0;
    while k < row.len()
        invariant
            k <= row.len(),
            out@ == row@.take(k as int),
        decreases row.len() - k,
    {
        out.push(row[k]);
        assert(row@.take(k as int + 1) == row@.take(k as int).push(row@[k as int]));
        k += 1;
    }
    assert(row@.take(row.len() as int) == row@);
    out
}

/// Extends every point of `ch` by every value of `vals`.
fn cross_with(ch: &Vec<Vec<i32>>, vals: &Vec<i32>) -> (out: Vec<Vec<i32>>)
    ensures
        rows_view(out@) == cross_axis(rows_view(ch@), vals@),
{
    let mut out: Vec<Vec<i32>> = Vec::new();
    let ghost width = vals@.len() as int;
    let mut a: usize = 0;
    while a < ch.len()
        invariant
            a <= ch.len(),
            width == vals@.len(),
            out@.len() == a * width,
            forall|k: int|
                0 <= k < out@.len() ==> (#[trigger] out@[k])@ == ch@[k / width]@.push(
                    vals@[k % width],
                ),
        decreases ch.len() - a,
    {
        let mut b: usize = 0;
        while b < vals.len()
            invariant
                a < ch.len(),
                b <= vals.len(),
                width == vals@.len(),
                out@.len() == a * width + b,
                forall|k: int|
                    0 <= k < out@.len() ==> (#[trigger] out@[k])@ == ch@[k / width]@.push(
                        vals@[k % width],
                    ),
            decreases vals.len() - b,
        {
            let mut point = copy_row(&ch[a]);
            point.push(vals[b]);
            proof {
                lemma_fundamental_div_mod_converse(a * width + b, width, a as int, b as int);
            }
            out.push(point);
            b += 1;
        }
        proof {
            assert((a + 1) * width == a * width + width) by (nonlinear_arith);
        }
        a += 1;
    }
    proof {
        assert(out@.len() == ch@.len() * vals@.len());
        assert forall|k: int| 0 <= k < out@.len() implies rows_view(out@)[k] == cross_axis(
            rows_view(ch@),
            vals@,
        )[k] by {
            if width > 0 {
                assert(0 <= k / width < ch@.len()) by (nonlinear_arith)
                    requires
                        0 <= k < ch@.len() * width,
                        width > 0,
                ;
            }
        }
        assert(rows_view(out@) =~= cross_axis(rows_view(ch@), vals@));
    }
    out
}

/// The hull of a one-axis shape: the points `[w[1]], ..., [w[0]]`.
pub fn convex_hull_1d(_u: &Vec<Vec<i32>>, w: &Vec<i32>, _dense: bool) -> (ch: Vec<Vec<i32>>)
    requires
        w@.len() >= 2,
    ensures
        rows_view(ch@) == hull_1d_spec(w@),
{
    let vals = axis_range(w[1], w[0]);
    let mut ch: Vec<Vec<i32>> = Vec::new();
    let mut k: usize = 0;
    while k < vals.len()
        invariant
            k <= vals.len(),
            ch@.len() == k,
            forall|m: int| 0 <= m < k ==> (#[trigger] ch@[m])@ == seq![vals@[m]],
        decreases vals.len() - k,
    {
        let mut point: Vec<i32> = Vec::new();
        point.push(vals[k]);
        ch.push(point);
        k += 1;
    }
    assert(rows_view(ch@) =~= hull_1d_spec(w@));
    ch
}

/// Enumerates the lattice points of a hyperrectangle whose inequalities are
/// the rows of `u` with the offsets `w`: upper bounds in the first half of
/// `w`, negated lower bounds in the second. The points come in lexicographic
/// order, the first axis varying slowest. With `dense` every point of the box
/// is listed; without it the last axis is collapsed to its two ends.
pub fn convex_hull_hyperrectangle_nd(u: &Vec<Vec<i32>>, w: &Vec<i32>, dense: bool) -> (ch: Vec<
    Vec<i32>,
>)
    requires
        u@.len() >= 1,
        w@.len() >= 2,
        u@[0]@.len() >= 2 ==> w@.len() / 2 >= u@[0]@.len(),
        forall|k: int| 0 <= k < w@.len() ==> #[trigger] w@[k] > i32::MIN,
    ensures
        rows_view(ch@) == hull_spec(u@[0]@.len(), w@, dense),
{
    let dims = u[0].len();
    if dims < 2 {
        return convex_hull_1d(u, w, dense);
    }
    let half = w.len() / 2;
    let ghost lo = hull_lows(w@);
    let ghost hi = hull_highs(w@);
    let mut ch: Vec<Vec<i32>> = Vec::new();
    ch.push(Vec::new());
    assert(rows_view(ch@) =~= box_points(lo, hi, 0));
    let full_axes = if dense { dims } else { dims - 1 };
    let mut idx: usize = 0;
    while idx < full_axes
        invariant
            idx <= full_axes <= dims,
            half == w@.len() / 2,
            half >= dims,
            half + dims <= w@.len() <= usize::MAX,
            lo == hull_lows(w@),
            hi == hull_highs(w@),
            forall|k: int| 0 <= k < w@.len() ==> #[trigger] w@[k] > i32::MIN,
            rows_view(ch@) == box_points(lo, hi, idx as nat),
        decreases full_axes - idx,
    {
        let vals = axis_range(-w[half + idx], w[idx]);
        ch = cross_with(&ch, &vals);
        idx += 1;
    }
    if !dense {
        let mut ends: Vec<i32> = Vec::new();
        ends.push(-w[half + dims - 1]);
        ends.push(w[dims - 1]);
        assert(ends@ =~= seq![lo[dims - 1] as i32, hi[dims - 1] as i32]);
        ch = cross_with(&ch, &ends);
    }
    ch
}

/// The id that a shape names as its inner shape, 0 where it names none.
pub open spec fn sub_id(shape: MetaPattern) -> i32 {
    match shape.2 {
        Some(s) => s,
        None => 0i32,
    }
}

/// The order recorded for a shape, 0 where the id is unknown.
pub open spec fn order_of(pats: Seq<(i32, MetaPattern)>, id: i32) -> int {
    match lookup(pats, id) {
        Some(shape) => shape.1 as int,
        None => 0,
    }
}

/// The axes of a nested shape, outermost first: the triple of the shape,
/// then the axes of the shape that it repeats, `depth` of them in all.
pub open spec fn axes(pats: Seq<(i32, MetaPattern)>, id: i32, depth: int) -> Seq<Pattern>
    decreases depth,
{
    if depth <= 0 {
        Seq::empty()
    } else {
        match lookup(pats, id) {
            None => Seq::empty(),
            Some(shape) => seq![shape.0] + axes(pats, sub_id(shape), depth - 1),
        }
    }
}

/// The shape `id` is nested `depth` deep: it is recorded with that order and
/// at least one cell along its axis, and beyond the first level it repeats a
/// shape that is nested one level less.
pub open spec fn nested_ok(pats: Seq<(i32, MetaPattern)>, id: i32, depth: int) -> bool
    decreases depth,
{
    &&& depth >= 1
    &&& match lookup(pats, id) {
        None => false,
        Some(shape) => {
            &&& shape.1 == depth
            &&& shape.0.0 >= 1
            &&& depth >= 2 ==> shape.2 is Some && nested_ok(pats, sub_id(shape), depth - 1)
        },
    }
}

/// A nested shape has as many axes as levels, each with at least one cell.
pub proof fn lemma_axes(pats: Seq<(i32, MetaPattern)>, id: i32, depth: int)
    requires
        nested_ok(pats, id, depth),
    ensures
        axes(pats, id, depth).len() == depth,
        forall|k: int| 0 <= k < depth ==> (#[trigger] axes(pats, id, depth)[k]).0 >= 1,
        lookup(pats, id) matches Some(shape) && axes(pats, id, depth)[0] == shape.0,
    decreases depth,
{
    let shape = lookup(pats, id).unwrap();
    if depth >= 2 {
        lemma_axes(pats, sub_id(shape), depth - 1);
    } else {
        assert(axes(pats, sub_id(shape), 0).len() == 0);
    }
    let rest = axes(pats, sub_id(shape), depth - 1);
    assert forall|k: int| 0 <= k < depth implies (#[trigger] axes(pats, id, depth)[k]).0 >= 1 by {
        if k > 0 {
            assert(axes(pats, id, depth)[k] == rest[k - 1]);
        }
    }
}

/// The inequality normals of a hyperrectangle of `d` axes: the rows
/// `-e_1, ..., -e_d, e_1, ..., e_d`.
pub open spec fn hyperrect_u(d: int) -> Seq<Seq<i32>> {
    Seq::new(
        (2 * d) as nat,
        |r: int|
            Seq::new(
                d as nat,
                |c: int|
                    if r < d {
                        if c == r {
                            -1i32
                        } else {
                            0i32
                        }
                    } else {
                        if c == r - d {
                            1i32
                        } else {
                            0i32
                        }
                    },
            ),
    )
}

/// The offsets of the hyperrectangle of the axes: `N_k - 1` for each axis,
/// then as many zeros.
pub open spec fn hyperrect_w(ax: Seq<Pattern>) -> Seq<i32> {
    Seq::new(
        2 * ax.len(),
        |k: int|
            if k < ax.len() {
                (ax[k].0 - 1) as i32
            } else {
                0i32
            },
    )
}

/// The lattice of the axes: the row and the column stride of each axis,
/// outermost first.
pub open spec fn lattice(ax: Seq<Pattern>) -> Seq<i32> {
    Seq::new(
        2 * ax.len(),
        |k: int|
            if k % 2 == 0 {
                ax[k / 2].1
            } else {
                ax[k / 2].2
            },
    )
}

/// The shape record of a nested shape: walks the chain of its inner shapes,
/// as many as its order says, and returns the inequality normals of the
/// hyperrectangle, the offsets `N_k - 1` followed by zeros, and the strides
/// `(I_k, J_k)`, outermost axis first.
pub fn metapattern_to_hyperrectangle_uwc(metapattern_id: i32, meta_patterns: &LinkedHashMap<i32, MetaPattern>) -> (uwc:
    Uwc)
    requires
        nested_ok(
            pattern_entries(*meta_patterns),
            metapattern_id,
            order_of(pattern_entries(*meta_patterns), metapattern_id),
        ),
    ensures
        ({
            let pats = pattern_entries(*meta_patterns);
            let order = order_of(pats, metapattern_id);
            &&& rows_view(uwc.0@) == hyperrect_u(order)
            &&& uwc.1@ == hyperrect_w(axes(pats, metapattern_id, order))
            &&& uwc.2@ == lattice(axes(pats, metapattern_id, order))
        }),
{
    let ghost pats = pattern_entries(*meta_patterns);
    let first = patterns_get(meta_patterns, metapattern_id);
    let order: i32 = match first {
        Some(shape) => shape.1,
        None => 0,
    };
    let ghost ax = axes(pats, metapattern_id, order as int);
    proof {
        lemma_axes(pats, metapattern_id, order as int);
    }
    let d = order as usize;
    // the rows of U
    let mut u: Vec<Vec<i32>> = Vec::new();
    let mut r: usize = 0;
    while r < 2 * d
        invariant
            r <= 2 * d,
            d == order,
            1 <= order,
            u@.len() == r,
            forall|m: int| 0 <= m < r ==> (#[trigger] u@[m])@ == hyperrect_u(order as int)[m],
        decreases 2 * d - r,
    {
        let mut row: Vec<i32> = Vec::new();
        let mut c: usize = 0;
        while c < d
            invariant
                c <= d,
                d == order,
                r < 2 * d,
                row@.len() == c,
                forall|m: int| 0 <= m < c ==> #[trigger] row@[m] == hyperrect_u(order as int)[r as int][m],
            decreases d - c,
        {
            let entry: i32 = if r < d {
                if c == r {
                    -1
                } else {
                    0
                }
            } else {
                if c == r - d {
                    1
                } else {
                    0
                }
            };
            row.push(entry);
            c += 1;
        }
        assert(row@ =~= hyperrect_u(order as int)[r as int]);
        u.push(row);
        r += 1;
    }
    assert(rows_view(u@) =~= hyperrect_u(order as int));
    // the offsets and the lattice, along the chain
    let mut w: Vec<i32> = Vec::new();
    let mut c: Vec<i32> = Vec::new();
    let mut curr_id = metapattern_id;
    let mut idx: i32 = 0;
    while idx < order
        invariant
            0 <= idx <= order,
            pats == pattern_entries(*meta_patterns),
            ax == axes(pats, metapattern_id, order as int),
            ax.len() == order,
            forall|k: int| 0 <= k < order ==> (#[trigger] ax[k]).0 >= 1,
            idx < order ==> nested_ok(pats, curr_id, order - idx),
            ax.skip(idx as int) == axes(pats, curr_id, order - idx),
            w@.len() == idx,
            c@.len() == 2 * idx,
            forall|k: int| 0 <= k < idx ==> #[trigger] w@[k] == (ax[k].0 - 1) as i32,
            forall|k: int| 0 <= k < 2 * idx ==> #[trigger] c@[k] == lattice(ax)[k],
        decreases order - idx,
    {
        let found = patterns_get(meta_patterns, curr_id);
        match found {
            Some(shape) => {
                let ((n, i, j), _, subpat) = shape;
                proof {
                    let rest = axes(pats, sub_id(shape), order - idx - 1);
                    assert(ax.skip(idx as int)[0] == shape.0);
                    assert(ax[idx as int] == shape.0);
                    assert(ax.skip(idx as int + 1) =~= rest) by {
                        let here = ax.skip(idx as int);
                        assert(here == seq![shape.0] + rest);
                        assert(here.len() == order - idx);
                        assert((seq![shape.0] + rest).len() == 1 + rest.len());
                        assert(rest.len() == order - idx - 1);
                        assert forall|k: int| 0 <= k < rest.len() implies ax.skip(idx as int + 1)[k]
                            == rest[k] by {
                            assert(here[k + 1] == rest[k]);
                            assert(here[k + 1] == ax[idx + k + 1]);
                        }
                    }
                    assert((2 * idx) % 2 == 0 && (2 * idx) / 2 == idx) by (nonlinear_arith)
                        requires
                            idx >= 0,
                    ;
                    assert((2 * idx + 1) % 2 == 1 && (2 * idx + 1) / 2 == idx) by (nonlinear_arith)
                        requires
                            idx >= 0,
                    ;
                }
                w.push(n - 1);
                c.push(i);
                c.push(j);
                curr_id = match subpat {
                    Some(s) => s,
                    None => 0,
                };
            },
            None => {
                assert(false);
            },
        }
        idx += 1;
    }
    let mut z: i32 = 0;
    while z < order
        invariant
            0 <= z <= order,
            ax.len() == order,
            w@.len() == order + z,
            forall|k: int| 0 <= k < order ==> #[trigger] w@[k] == (ax[k].0 - 1) as i32,
            forall|k: int| order <= k < order + z ==> #[trigger] w@[k] == 0i32,
        decreases order - z,
    {
        w.push(0);
        z += 1;
    }
    assert(w@ =~= hyperrect_w(ax));
    assert(c@ =~= lattice(ax));
    (u, w, c)
}

/// The product of two quantities of 32 bits stays within 63 bits.
pub proof fn lemma_step_bound(k: int, s: int)
    requires
        -0x8000_0000 <= k <= 0x8000_0000,
        -0x8000_0000 <= s <= 0x8000_0000,
    ensures
        -0x4000_0000_0000_0000 <= k * s <= 0x4000_0000_0000_0000,
{
    assert(-0x4000_0000_0000_0000 <= k * s <= 0x4000_0000_0000_0000) by (nonlinear_arith)
        requires
            -0x8000_0000 <= k <= 0x8000_0000,
            -0x8000_0000 <= s <= 0x8000_0000,
    ;
}

} // verus!
