//! Raising the order of an inventory: repetitions of placed shapes at a
//! regular stride are folded into shapes of the next order.

use vstd::prelude::*;
use crate::grid::{
    all_free, bitmap_cells, bitmap_entries, bitmap_insert, bitmap_shape, bitmap_zero,
    lemma_stored_cells, row_major_sorted, stored_cells, within, Bitmap, Cell,
};
use crate::spsearch::{
    fits, mark_piece, piece_cell, place, probe_cell, same_positions, uncovered_at,
};
use linked_hash_map::LinkedHashMap;
use crate::cover::count_claimed;
use crate::errors::ErrorKind;
use crate::inventory::SINGLE;
use crate::ordered::{
    distinct_keys, has_key, lemma_lookup_at, lemma_put, lookup, occurrence_entries,
    occurrences_collect, occurrences_get, occurrences_set, occurrences_to_vec, pattern_entries,
    patterns_back, patterns_clone, patterns_get, patterns_insert, patterns_new,
    patterns_set_order,
    patterns_to_vec, piece_entries, pieces_clone, pieces_insert, pieces_new, pieces_remove,
    pieces_to_vec, put, with_order, without_key,
};
use crate::utils::{
    order_of, orig_uwc_to_piece_1d, MetaPattern, MetaPatternPiece, OriginUwc, Pattern, Piece,
};
use crate::utils::lemma_step_bound;

verus! {

/// The step between two origins: rows, columns.
pub type Stride = (i32, i32);

/// A stride and the number of pairs of origins that it separates.
pub type Occurrence = (Stride, u32);

/// The absolute value.
pub open spec fn magnitude(v: int) -> int {
    if v < 0 {
        -v
    } else {
        v
    }
}

/// Both components of the stride lie in the window, by absolute value.
pub open spec fn in_window(s: Stride, min_stride: int, max_stride: int) -> bool {
    &&& min_stride <= magnitude(s.0 as int) <= max_stride
    &&& min_stride <= magnitude(s.1 as int) <= max_stride
}

/// The stride from the origin `a` to the origin `b`.
pub open spec fn stride_between(origins: Seq<(i32, i32)>, a: int, b: int) -> Stride {
    ((origins[b].0 - origins[a].0) as i32, (origins[b].1 - origins[a].1) as i32)
}

/// The strides from the origin `a` to the later origins before `upto`,
/// those inside the window only.
pub open spec fn strides_from(
    origins: Seq<(i32, i32)>,
    a: int,
    upto: int,
    min_stride: int,
    max_stride: int,
) -> Seq<Stride>
    decreases upto,
{
    if upto <= a + 1 || upto <= 0 {
        Seq::empty()
    } else if in_window(stride_between(origins, a, upto - 1), min_stride, max_stride) {
        strides_from(origins, a, upto - 1, min_stride, max_stride).push(
            stride_between(origins, a, upto - 1),
        )
    } else {
        strides_from(origins, a, upto - 1, min_stride, max_stride)
    }
}

/// The strides between all pairs of origins whose first is before `upto`,
/// in the order of the pairs: by the first origin, then by the second.
pub open spec fn strides_of(origins: Seq<(i32, i32)>, upto: int, min_stride: int, max_stride: int) -> Seq<
    Stride,
>
    decreases upto,
{
    if upto <= 0 {
        Seq::empty()
    } else {
        strides_of(origins, upto - 1, min_stride, max_stride) + strides_from(
            origins,
            upto - 1,
            origins.len() as int,
            min_stride,
            max_stride,
        )
    }
}

/// The place of a stride among the occurrences, their number where it is
/// not counted yet.
pub open spec fn place_of(occ: Seq<Occurrence>, s: Stride, upto: int) -> int
    decreases upto,
{
    if upto <= 0 {
        occ.len() as int
    } else if occ[upto - 1].0 == s {
        upto - 1
    } else {
        place_of(occ, s, upto - 1)
    }
}

/// The occurrences with one more of the stride: its count grows where it
/// is counted already, otherwise it is entered last with the count 1.
pub open spec fn count_in(occ: Seq<Occurrence>, s: Stride) -> Seq<Occurrence> {
    let at = place_of(occ, s, occ.len() as int);
    if at < occ.len() {
        occ.update(at, (s, (occ[at].1 + 1) as u32))
    } else {
        occ.push((s, 1u32))
    }
}

/// The first `upto` strides counted, each stride in the place where it
/// was first seen.
pub open spec fn counted(strides: Seq<Stride>, upto: int) -> Seq<Occurrence>
    decreases upto,
{
    if upto <= 0 {
        Seq::empty()
    } else {
        count_in(counted(strides, upto - 1), strides[upto - 1])
    }
}

/// The squared length of a stride.
pub open spec fn squared(s: Stride) -> int {
    s.0 * s.0 + s.1 * s.1
}

/// `a` ranks before `b`: it occurs more often, or as often at a shorter
/// stride.
pub open spec fn ranks_before(a: Occurrence, b: Occurrence) -> bool {
    a.1 > b.1 || (a.1 == b.1 && squared(a.0) < squared(b.0))
}

/// The first place from `from` on whose occurrence `e` ranks before.
pub open spec fn rank_place(sorted: Seq<Occurrence>, e: Occurrence, from: int) -> int
    decreases sorted.len() - from,
{
    if from < 0 || from >= sorted.len() {
        sorted.len() as int
    } else if ranks_before(e, sorted[from]) {
        from
    } else {
        rank_place(sorted, e, from + 1)
    }
}

/// The first `upto` occurrences in ranking order: most occurrences first,
/// then the shorter stride; occurrences that rank alike keep their order.
pub open spec fn ranked(occ: Seq<Occurrence>, upto: int) -> Seq<Occurrence>
    decreases upto,
{
    if upto <= 0 {
        Seq::empty()
    } else {
        let before = ranked(occ, upto - 1);
        before.insert(rank_place(before, occ[upto - 1], 0), occ[upto - 1])
    }
}

/// The occurrence list of a group of origins: the strides between its pairs
/// that lie in the window, counted and ranked.
pub open spec fn occurrences(origins: Seq<(i32, i32)>, min_stride: int, max_stride: int) -> Seq<
    Occurrence,
> {
    let strides = strides_of(origins, origins.len() as int, min_stride, max_stride);
    let counts = counted(strides, strides.len() as int);
    ranked(counts, counts.len() as int)
}

/// Every origin has coordinates that are no less than zero.
pub open spec fn origins_valid(origins: Seq<(i32, i32)>) -> bool {
    forall|k: int| 0 <= k < origins.len() ==> (#[trigger] origins[k]).0 >= 0 && origins[k].1 >= 0
}

/// The strides from an origin to more of the later origins are no fewer.
proof fn lemma_strides_from_grow(origins: Seq<(i32, i32)>, a: int, b: int, c: int, min: int, max: int)
    requires
        b <= c,
    ensures
        strides_from(origins, a, b, min, max).len() <= strides_from(origins, a, c, min, max).len(),
    decreases c - b,
{
    if b < c {
        lemma_strides_from_grow(origins, a, b, c - 1, min, max);
    }
}

/// The strides from more of the origins are no fewer.
proof fn lemma_strides_of_grow(origins: Seq<(i32, i32)>, a: int, b: int, min: int, max: int)
    requires
        a <= b,
    ensures
        strides_of(origins, a, min, max).len() <= strides_of(origins, b, min, max).len(),
    decreases b - a,
{
    if a < b {
        lemma_strides_of_grow(origins, a, b - 1, min, max);
    }
}

/// The strides collected so far are among all the strides of the group.
proof fn lemma_strides_part(origins: Seq<(i32, i32)>, a: int, b: int, min: int, max: int)
    requires
        0 <= a < origins.len(),
        b <= origins.len(),
    ensures
        strides_of(origins, a, min, max).len() + strides_from(origins, a, b, min, max).len()
            <= strides_of(origins, origins.len() as int, min, max).len(),
{
    lemma_strides_from_grow(origins, a, b, origins.len() as int, min, max);
    lemma_strides_of_grow(origins, a + 1, origins.len() as int, min, max);
}

/// The strides between the pairs of origins that lie in the window. `None`
/// where they are 2^31 - 1 or more: the count of a stride, and one more,
/// must fit 31 bits.
fn collect_strides(origins: &Vec<(i32, i32)>, min_stride: usize, max_stride: usize) -> (found:
    Option<Vec<Stride>>)
    requires
        origins_valid(origins@),
    ensures
        match found {
            Some(strides) => strides@ == strides_of(
                origins@,
                origins@.len() as int,
                min_stride as int,
                max_stride as int,
            ) && strides@.len() < 0x7FFF_FFFF,
            None => strides_of(
                origins@,
                origins@.len() as int,
                min_stride as int,
                max_stride as int,
            ).len() >= 0x7FFF_FFFF,
        },
{
    let mut strides: Vec<Stride> = Vec::new();
    let n = origins.len();
    let mut a: usize = 0;
    while a < n
        invariant
            a <= n,
            n == origins@.len(),
            origins_valid(origins@),
            strides@ == strides_of(origins@, a as int, min_stride as int, max_stride as int),
            strides@.len() < 0x7FFF_FFFF,
        decreases n - a,
    {
        let ghost done = strides@;
        let mut b: usize = a + 1;
        proof {
            assert(strides_from(origins@, a as int, a + 1, min_stride as int, max_stride as int)
                =~= Seq::<Stride>::empty());
            assert(done + Seq::<Stride>::empty() =~= done);
        }
        while b < n
            invariant
                a < n,
                a + 1 <= b <= n || (a + 1 == n + 0 && b == a + 1),
                n == origins@.len(),
                origins_valid(origins@),
                done == strides_of(origins@, a as int, min_stride as int, max_stride as int),
                strides@ == done + strides_from(
                    origins@,
                    a as int,
                    b as int,
                    min_stride as int,
                    max_stride as int,
                ),
                strides@.len() < 0x7FFF_FFFF,
            decreases n - b,
        {
            let (ax, ay) = origins[a];
            let (bx, by) = origins[b];
            let sx: i32 = bx - ax;
            let sy: i32 = by - ay;
            let absx: usize = if sx < 0 {
                (-sx) as usize
            } else {
                sx as usize
            };
            let absy: usize = if sy < 0 {
                (-sy) as usize
            } else {
                sy as usize
            };
            if absx <= max_stride && absy <= max_stride && absx >= min_stride && absy
                >= min_stride {
                if strides.len() >= 0x7FFF_FFFE {
                    proof {
                        lemma_strides_part(
                            origins@,
                            a as int,
                            b as int + 1,
                            min_stride as int,
                            max_stride as int,
                        );
                    }
                    return None;
                }
                strides.push((sx, sy));
            }
            b += 1;
        }
        proof {
            if b > n {
                assert(strides_from(
                    origins@,
                    a as int,
                    n as int,
                    min_stride as int,
                    max_stride as int,
                ) =~= Seq::<Stride>::empty());
            }
        }
        a += 1;
    }
    Some(strides)
}

/// Counts the strides, each in the place where it was first seen.
fn count_strides(strides: &Vec<Stride>) -> (occ: Vec<Occurrence>)
    requires
        strides@.len() < 0x7FFF_FFFF,
    ensures
        occ@ == counted(strides@, strides@.len() as int),
        forall|k: int| 0 <= k < occ@.len() ==> 1 <= (#[trigger] occ@[k]).1 <= strides@.len(),
{
    let mut occ: Vec<Occurrence> = Vec::new();
    let mut k: usize = 0;
    while k < strides.len()
        invariant
            k <= strides@.len(),
            strides@.len() < 0x7FFF_FFFF,
            occ@ == counted(strides@, k as int),
            forall|m: int| 0 <= m < occ@.len() ==> 1 <= (#[trigger] occ@[m]).1 <= k,
        decreases strides.len() - k,
    {
        let s = strides[k];
        let mut at: usize = occ.len();
        let mut m: usize = 0;
        while m < occ.len()
            invariant
                m <= occ@.len(),
                at == place_of(occ@, s, m as int),
                at <= occ@.len(),
            decreases occ.len() - m,
        {
            if occ[m].0.0 == s.0 && occ[m].0.1 == s.1 {
                at = m;
            }
            m += 1;
        }
        if at < occ.len() {
            let count = occ[at].1;
            occ.set(at, (s, count + 1));
        } else {
            occ.push((s, 1));
        }
        k += 1;
    }
    occ
}

/// Whether `a` ranks before `b`.
fn ranks_first(a: &Occurrence, b: &Occurrence) -> (first: bool)
    ensures
        first == ranks_before(*a, *b),
{
    if a.1 > b.1 {
        return true;
    }
    if a.1 < b.1 {
        return false;
    }
    let ax = a.0.0 as i64;
    let ay = a.0.1 as i64;
    let bx = b.0.0 as i64;
    let by = b.0.1 as i64;
    proof {
        assert(0 <= ax * ax <= 0x4000_0000_0000_0000) by (nonlinear_arith)
            requires
                -0x8000_0000 <= ax <= 0x8000_0000,
        ;
        assert(0 <= ay * ay <= 0x4000_0000_0000_0000) by (nonlinear_arith)
            requires
                -0x8000_0000 <= ay <= 0x8000_0000,
        ;
        assert(0 <= bx * bx <= 0x4000_0000_0000_0000) by (nonlinear_arith)
            requires
                -0x8000_0000 <= bx <= 0x8000_0000,
        ;
        assert(0 <= by * by <= 0x4000_0000_0000_0000) by (nonlinear_arith)
            requires
                -0x8000_0000 <= by <= 0x8000_0000,
        ;
    }
    let sa: u64 = (ax * ax) as u64 + (ay * ay) as u64;
    let sb: u64 = (bx * bx) as u64 + (by * by) as u64;
    sa < sb
}

/// Where no occurrence looked at has the stride, its place is behind all.
proof fn lemma_place_absent(occ: Seq<Occurrence>, s: Stride, upto: int)
    requires
        0 <= upto <= occ.len(),
    ensures
        0 <= place_of(occ, s, upto) <= occ.len(),
        place_of(occ, s, upto) == occ.len() ==> forall|k: int|
            0 <= k < upto ==> (#[trigger] occ[k]).0 != s,
        place_of(occ, s, upto) < occ.len() ==> place_of(occ, s, upto) < upto && occ[place_of(
            occ,
            s,
            upto,
        )].0 == s,
    decreases upto,
{
    if upto > 0 {
        lemma_place_absent(occ, s, upto - 1);
    }
}

/// Counted strides are counted once each.
proof fn lemma_counted_distinct(strides: Seq<Stride>, upto: int)
    requires
        0 <= upto <= strides.len(),
    ensures
        distinct_keys(counted(strides, upto)),
    decreases upto,
{
    if upto > 0 {
        lemma_counted_distinct(strides, upto - 1);
        let before = counted(strides, upto - 1);
        let s = strides[upto - 1];
        let out = counted(strides, upto);
        lemma_place_absent(before, s, before.len() as int);
        let at = place_of(before, s, before.len() as int);
        assert(out == count_in(before, s));
        assert(0 <= at <= before.len());
        if at < before.len() {
            assert(out == before.update(at, (s, (before[at].1 + 1) as u32)));
            assert forall|a: int, b: int| 0 <= a < b < out.len() implies (#[trigger] out[a]).0
                != (#[trigger] out[b]).0 by {
                assert(out[a].0 == before[a].0);
                assert(out[b].0 == before[b].0);
                assert(before[a].0 != before[b].0);
            }
        } else {
            assert(out == before.push((s, 1u32)));
            assert forall|a: int, b: int| 0 <= a < b < out.len() implies (#[trigger] out[a]).0
                != (#[trigger] out[b]).0 by {
                if b < before.len() {
                    assert(out[a] == before[a] && out[b] == before[b]);
                    assert(before[a].0 != before[b].0);
                } else {
                    assert(out[a] == before[a]);
                    assert(before[a].0 != s);
                }
            }
        }
    }
}

/// Ranking occurrences with distinct strides leaves distinct strides:
/// every ranked occurrence is one of those ranked, and none stands twice.
proof fn lemma_ranked_distinct(occ: Seq<Occurrence>, upto: int)
    requires
        distinct_keys(occ),
        0 <= upto <= occ.len(),
    ensures
        distinct_keys(ranked(occ, upto)),
        ranked(occ, upto).len() == upto,
        forall|q: int|
            0 <= q < upto ==> exists|m: int| 0 <= m < upto && #[trigger] ranked(occ, upto)[q] == #[trigger] occ[m],
    decreases upto,
{
    if upto > 0 {
        lemma_ranked_distinct(occ, upto - 1);
        let before = ranked(occ, upto - 1);
        let e = occ[upto - 1];
        lemma_rank_place_bounds(before, e, 0);
        let at = rank_place(before, e, 0);
        let out = ranked(occ, upto);
        assert forall|q: int| 0 <= q < upto implies exists|m: int|
            0 <= m < upto && #[trigger] out[q] == #[trigger] occ[m] by {
            if q < at {
                assert(out[q] == before[q]);
                let m = choose|m: int| 0 <= m < upto - 1 && before[q] == #[trigger] occ[m];
                assert(out[q] == occ[m]);
            } else if q == at {
                assert(out[q] == occ[upto - 1]);
            } else {
                assert(out[q] == before[q - 1]);
                let m = choose|m: int| 0 <= m < upto - 1 && before[q - 1] == #[trigger] occ[m];
                assert(out[q] == occ[m]);
            }
        }
        assert forall|a: int, b: int| 0 <= a < b < out.len() implies (#[trigger] out[a]).0
            != (#[trigger] out[b]).0 by {
            let ma = choose|m: int| 0 <= m < upto && out[a] == #[trigger] occ[m];
            let mb = choose|m: int| 0 <= m < upto && out[b] == #[trigger] occ[m];
            if ma == mb {
                // both are the same occurrence: it stands twice in the ranking
                if a != at && b != at {
                    let ia = if a < at { a } else { a - 1 };
                    let ib = if b < at { b } else { b - 1 };
                    assert(out[a] == before[ia] && out[b] == before[ib]);
                    assert(before[ia].0 != before[ib].0);
                } else if a == at {
                    let ib = b - 1;
                    assert(out[b] == before[ib]);
                    let m = choose|m: int| 0 <= m < upto - 1 && before[ib] == #[trigger] occ[m];
                    assert(occ[m].0 != occ[upto - 1].0);
                } else {
                    let ia = a;
                    assert(out[a] == before[ia]);
                    let m = choose|m: int| 0 <= m < upto - 1 && before[ia] == #[trigger] occ[m];
                    assert(occ[m].0 != occ[upto - 1].0);
                }
            } else {
                assert(occ[ma].0 != occ[mb].0);
            }
        }
    }
}

/// The place of an occurrence in a ranking lies within the ranking.
pub proof fn lemma_rank_place_bounds(sorted: Seq<Occurrence>, e: Occurrence, from: int)
    requires
        0 <= from <= sorted.len(),
    ensures
        from <= rank_place(sorted, e, from) <= sorted.len(),
    decreases sorted.len() - from,
{
    if from < sorted.len() && !ranks_before(e, sorted[from]) {
        lemma_rank_place_bounds(sorted, e, from + 1);
    }
}

/// Ranks the occurrences: most occurrences first, then the shorter stride,
/// then the one that was seen first.
fn rank_occurrences(occ: &Vec<Occurrence>) -> (sorted: Vec<Occurrence>)
    ensures
        sorted@ == ranked(occ@, occ@.len() as int),
        sorted@.len() == occ@.len(),
        forall|k: int| 0 <= k < sorted@.len() ==> occ@.contains(#[trigger] sorted@[k]),
{
    let mut sorted: Vec<Occurrence> = Vec::new();
    let mut k: usize = 0;
    while k < occ.len()
        invariant
            k <= occ@.len(),
            sorted@ == ranked(occ@, k as int),
            sorted@.len() == k,
            forall|m: int| 0 <= m < sorted@.len() ==> occ@.contains(#[trigger] sorted@[m]),
        decreases occ.len() - k,
    {
        let e = occ[k];
        let mut at: usize = 0;
        let mut found = false;
        while at < sorted.len() && !found
            invariant
                at <= sorted@.len(),
                rank_place(sorted@, e, 0) == rank_place(sorted@, e, at as int),
                found ==> at < sorted@.len() && ranks_before(e, sorted@[at as int]),
            decreases sorted.len() - at, if found { 0int } else { 1int },
        {
            if ranks_first(&e, &sorted[at]) {
                found = true;
            } else {
                at += 1;
            }
        }
        let ghost before = sorted@;
        sorted.insert(at, e);
        proof {
            assert(occ@.contains(e));
            assert forall|m: int| 0 <= m < sorted@.len() implies occ@.contains(
                #[trigger] sorted@[m],
            ) by {
                if m < at {
                    assert(sorted@[m] == before[m]);
                } else if m > at {
                    assert(sorted@[m] == before[m - 1]);
                }
            }
        }
        k += 1;
    }
    sorted
}

/// How far a line of free cells runs: the first step from `from` on, below
/// the length of the piece, whose cell is no free origin; the length of the
/// piece where all are.
pub open spec fn free_run(cells: Seq<Cell>, p: Piece, from: int) -> int
    decreases p.2.0 - from,
{
    if from >= p.2.0 {
        p.2.0 as int
    } else if !uncovered_at(cells, piece_cell(p, from)) {
        from
    } else {
        free_run(cells, p, from + 1)
    }
}

/// The longest repetition that starts at `(x, y)`: the piece of the given
/// stride, at most as long as the pattern says, whose cells are origins that
/// are not absorbed yet. Its length is 0 where `(x, y)` itself is absorbed.
pub open spec fn probe(cells: Seq<Cell>, x: usize, y: usize, pattern: Pattern) -> Piece {
    let p = (x, y, pattern);
    if !uncovered_at(cells, piece_cell(p, 0)) {
        (x, y, (0i32, pattern.1, pattern.2))
    } else {
        (x, y, (free_run(cells, p, 1) as i32, pattern.1, pattern.2))
    }
}

/// A free run from `from` on is no shorter than `from` and no longer than
/// the piece, and all of its cells from `from` on are free.
pub proof fn lemma_free_run(cells: Seq<Cell>, p: Piece, from: int)
    requires
        from <= p.2.0,
    ensures
        from <= free_run(cells, p, from) <= p.2.0,
        forall|k: int|
            from <= k < free_run(cells, p, from) ==> uncovered_at(cells, #[trigger] piece_cell(p, k)),
    decreases p.2.0 - from,
{
    if from < p.2.0 && uncovered_at(cells, piece_cell(p, from)) {
        lemma_free_run(cells, p, from + 1);
    }
}

/// Probes how often the shape at `curr_pos` repeats at the stride of the
/// pattern: returns the piece at that position with the stride of the
/// pattern and the greatest length, up to that of the pattern, such that
/// every step lands on an origin that is not absorbed. The length is 0
/// where the position itself is absorbed or no origin.
pub(crate) fn check_metapattern_reps(csmat: &Bitmap, curr_pos: (usize, usize), pattern: &Pattern) -> (found:
    Piece)
    requires
        row_major_sorted(bitmap_cells(*csmat)),
        within(
            bitmap_cells(*csmat),
            bitmap_shape(*csmat).0 as int,
            bitmap_shape(*csmat).1 as int,
        ),
    ensures
        found == probe(bitmap_cells(*csmat), curr_pos.0, curr_pos.1, *pattern),
{
    let (max_n, i, j) = *pattern;
    let (x, y) = curr_pos;
    let ghost cells = bitmap_cells(*csmat);
    let ghost p: Piece = (x, y, (max_n, i, j));
    if !probe_cell(csmat, x, y, i, j, 0) {
        return (x, y, (0, i, j));
    }
    let mut k: i32 = 1;
    while k < max_n
        invariant
            1 <= k,
            p == (x, y, (max_n, i, j)),
            p == (curr_pos.0, curr_pos.1, *pattern),
            uncovered_at(cells, piece_cell(p, 0)),
            cells == bitmap_cells(*csmat),
            row_major_sorted(bitmap_cells(*csmat)),
            within(
                bitmap_cells(*csmat),
                bitmap_shape(*csmat).0 as int,
                bitmap_shape(*csmat).1 as int,
            ),
            free_run(cells, p, 1) == free_run(cells, p, k as int),
        decreases max_n - k,
    {
        if !probe_cell(csmat, x, y, i, j, k) {
            return (x, y, (k, i, j));
        }
        k += 1;
    }
    (x, y, (max_n, i, j))
}

/// The longer of a candidate and the best piece so far; the best stays
/// where they are as long.
pub open spec fn better(cand: Piece, best: Piece) -> Piece {
    if cand.2.0 > best.2.0 {
        cand
    } else {
        best
    }
}

/// The best piece after the origins from `idx` on were probed in stored
/// order with one pattern. The sweep ends early once the best piece is as
/// long as the next stride could give, or as the origins that are left.
pub open spec fn sweep(
    cells: Seq<Cell>,
    pattern: Pattern,
    next_count: int,
    total: int,
    best: Piece,
    idx: int,
) -> Piece
    decreases cells.len() - idx,
{
    if idx < 0 || idx >= cells.len() {
        best
    } else {
        let b = better(probe(cells, cells[idx].0, cells[idx].1, pattern), best);
        if b.2.0 >= next_count + 1 || b.2.0 >= total - idx - 1 {
            b
        } else {
            sweep(cells, pattern, next_count, total, b, idx + 1)
        }
    }
}

/// The pattern that an occurrence is probed with: one cell more than the
/// stride was counted.
pub open spec fn probe_pattern(o: Occurrence) -> Pattern {
    ((o.1 + 1) as i32, o.0.0, o.0.1)
}

/// The first piece of at least `cutoff` cells that the strides from `q` on
/// give, each stride swept with the count of its successor in the list, the
/// last with that of the first.
pub open spec fn find_piece(
    cells: Seq<Cell>,
    occ: Seq<Occurrence>,
    cutoff: int,
    total: int,
    best: Piece,
    q: int,
) -> Option<Piece>
    decreases occ.len() - q,
{
    if q < 0 || q >= occ.len() {
        None
    } else {
        let b = sweep(
            cells,
            probe_pattern(occ[q]),
            occ[(q + 1) % (occ.len() as int)].1 as int,
            total,
            best,
            0,
        );
        if b.2.0 >= cutoff {
            Some(b)
        } else {
            find_piece(cells, occ, cutoff, total, b, q + 1)
        }
    }
}

/// The piece that every search starts from: one cell short of the cutoff.
pub open spec fn sentinel(cutoff: int) -> Piece {
    (0usize, 0usize, ((cutoff - 1) as i32, 0i32, 0i32))
}

/// The state of the folding of one group.
pub struct Folding {
    pub cells: Seq<Cell>,
    pub occ: Seq<Occurrence>,
    pub shapes: Seq<(i32, MetaPattern)>,
    pub pieces: Seq<(MetaPatternPiece, i32)>,
}

/// The occurrences with the count of a stride lessened, down to 0 at most.
pub open spec fn lessen(occ: Seq<Occurrence>, s: Stride, by: int) -> Seq<Occurrence> {
    Seq::new(
        occ.len(),
        |k: int|
            if occ[k].0 == s {
                (
                    s,
                    if occ[k].1 >= by {
                        (occ[k].1 - by) as u32
                    } else {
                        0u32
                    },
                )
            } else {
                occ[k]
            },
    )
}

/// The id of the next shape: that of the shape emitted last where it has
/// the same triple, the next id otherwise, `start_id` for the first.
pub open spec fn next_id(shapes: Seq<(i32, MetaPattern)>, triple: Pattern, start_id: i32) -> i32 {
    if shapes.len() == 0 {
        start_id
    } else if shapes.last().1.0 == triple {
        shapes.last().0
    } else {
        (shapes.last().0 + 1) as i32
    }
}

/// One commit: the cells of the piece are absorbed, the count of its stride
/// is lessened by the steps it takes, its shape is recorded over the shape
/// `low_id` unless the shape emitted last is the same, and the piece is
/// entered at its origin.
pub open spec fn commit(st: Folding, best: Piece, start_id: i32, low_id: i32) -> Folding {
    let id = next_id(st.shapes, best.2, start_id);
    Folding {
        cells: place(st.cells, best),
        occ: lessen(st.occ, (best.2.1, best.2.2), best.2.0 - 1),
        shapes: if st.shapes.len() > 0 && st.shapes.last().0 == id {
            st.shapes
        } else {
            st.shapes.push((id, (best.2, 0i32, Some(low_id))))
        },
        pieces: st.pieces.push(((best.0, best.1), id)),
    }
}

/// Commits pieces as long as one of at least `cutoff` cells is found, at
/// most `fuel` times.
pub open spec fn folded(
    st: Folding,
    cutoff: int,
    total: int,
    start_id: i32,
    low_id: i32,
    fuel: nat,
) -> Folding
    decreases fuel,
{
    if fuel == 0 {
        st
    } else {
        match find_piece(st.cells, st.occ, cutoff, total, sentinel(cutoff), 0) {
            None => st,
            Some(best) => folded(
                commit(st, best, start_id, low_id),
                cutoff,
                total,
                start_id,
                low_id,
                (fuel - 1) as nat,
            ),
        }
    }
}

/// The origins as positions of a grid.
pub open spec fn as_coords(origins: Seq<(i32, i32)>) -> Seq<(usize, usize)> {
    Seq::new(origins.len(), |k: int| (origins[k].0 as usize, origins[k].1 as usize))
}

/// What the folding of a group starts from: its origins laid out, none
/// absorbed, and its occurrence list.
pub open spec fn unfolded(origins: Seq<(i32, i32)>, min_stride: int, max_stride: int) -> Folding {
    Folding {
        cells: stored_cells(as_coords(origins)),
        occ: occurrences(origins, min_stride, max_stride),
        shapes: Seq::empty(),
        pieces: Seq::empty(),
    }
}

/// The shapes and pieces that the folding of a group emits. A group of
/// fewer than `cutoff` origins emits nothing.
pub open spec fn group_fold(
    origins: Seq<(i32, i32)>,
    cutoff: int,
    start_id: i32,
    low_id: i32,
    min_stride: int,
    max_stride: int,
) -> Folding {
    let start = unfolded(origins, min_stride, max_stride);
    if origins.len() < cutoff {
        start
    } else {
        folded(start, cutoff, origins.len() as int, start_id, low_id, start.cells.len())
    }
}

/// Lays the origins out on a grid, none of them absorbed.
fn lay_out(origins: &Vec<(i32, i32)>) -> (grid: Bitmap)
    requires
        origins_valid(origins@),
    ensures
        bitmap_cells(grid) == stored_cells(as_coords(origins@)),
        row_major_sorted(bitmap_cells(grid)),
        within(bitmap_cells(grid), bitmap_shape(grid).0 as int, bitmap_shape(grid).1 as int),
        all_free(bitmap_cells(grid)),
        bitmap_cells(grid).len() <= origins@.len(),
{
    let ghost coords = as_coords(origins@);
    let mut max_row: i32 = 0;
    let mut max_col: i32 = 0;
    let mut k: usize = 0;
    while k < origins.len()
        invariant
            k <= origins@.len(),
            origins_valid(origins@),
            0 <= max_row,
            0 <= max_col,
            forall|m: int| 0 <= m < k ==> (#[trigger] origins@[m]).0 <= max_row && origins@[m].1 <= max_col,
        decreases origins.len() - k,
    {
        if origins[k].0 > max_row {
            max_row = origins[k].0;
        }
        if origins[k].1 > max_col {
            max_col = origins[k].1;
        }
        k += 1;
    }
    let mut grid = bitmap_zero(max_row as usize, max_col as usize);
    let mut k: usize = 0;
    proof {
        assert(coords.take(0) =~= Seq::<(usize, usize)>::empty());
    }
    while k < origins.len()
        invariant
            k <= origins@.len(),
            origins_valid(origins@),
            coords == as_coords(origins@),
            max_row >= 0,
            max_col >= 0,
            forall|m: int|
                0 <= m < origins@.len() ==> (#[trigger] origins@[m]).0 <= max_row && origins@[m].1
                    <= max_col,
            bitmap_cells(grid) == stored_cells(coords.take(k as int)),
            bitmap_shape(grid).0 <= max_row + 1,
            bitmap_shape(grid).1 <= max_col + 1,
            forall|m: int|
                0 <= m < k ==> (#[trigger] coords[m]).0 < bitmap_shape(grid).0 && coords[m].1
                    < bitmap_shape(grid).1,
        decreases origins.len() - k,
    {
        let (row, col) = origins[k];
        bitmap_insert(&mut grid, row as usize, col as usize, false);
        proof {
            let next = coords.take(k as int + 1);
            assert(next.drop_last() == coords.take(k as int));
            assert(next.last() == coords[k as int]);
        }
        k += 1;
    }
    proof {
        assert(coords.take(origins@.len() as int) == coords);
        lemma_stored_cells(coords, bitmap_shape(grid).0 as int, bitmap_shape(grid).1 as int);
    }
    grid
}

/// Probes the origins in stored order with one pattern.
fn sweep_origins(
    grid: &Bitmap,
    cells: &Vec<Cell>,
    pattern: &Pattern,
    next_count: u32,
    total: usize,
    first: Piece,
) -> (found: Piece)
    requires
        cells@ == bitmap_cells(*grid),
        row_major_sorted(bitmap_cells(*grid)),
        within(bitmap_cells(*grid), bitmap_shape(*grid).0 as int, bitmap_shape(*grid).1 as int),
        next_count < 0x7FFF_FFFF,
    ensures
        found == sweep(cells@, *pattern, next_count as int, total as int, first, 0),
{
    let mut best = first;
    let mut idx: usize = 0;
    while idx < cells.len()
        invariant
            idx <= cells@.len(),
            cells@ == bitmap_cells(*grid),
            row_major_sorted(bitmap_cells(*grid)),
            within(bitmap_cells(*grid), bitmap_shape(*grid).0 as int, bitmap_shape(*grid).1 as int),
            next_count < 0x7FFF_FFFF,
            sweep(cells@, *pattern, next_count as int, total as int, first, 0) == sweep(
                cells@,
                *pattern,
                next_count as int,
                total as int,
                best,
                idx as int,
            ),
        decreases cells.len() - idx,
    {
        let (x, y, _) = cells[idx];
        let cand = check_metapattern_reps(grid, (x, y), pattern);
        if cand.2.0 > best.2.0 {
            best = cand;
        }
        let n = best.2.0 as i128;
        if n >= next_count as i128 + 1 || n >= total as i128 - idx as i128 - 1 {
            return best;
        }
        idx += 1;
    }
    best
}

/// The first piece of at least `cutoff` cells that the strides give.
fn find_best(grid: &Bitmap, cells: &Vec<Cell>, occ: &Vec<Occurrence>, cutoff: usize, total: usize) -> (found:
    Option<Piece>)
    requires
        cells@ == bitmap_cells(*grid),
        row_major_sorted(bitmap_cells(*grid)),
        within(bitmap_cells(*grid), bitmap_shape(*grid).0 as int, bitmap_shape(*grid).1 as int),
        1 <= cutoff <= 0x7FFF_FFFF,
        forall|k: int| 0 <= k < occ@.len() ==> (#[trigger] occ@[k]).1 < 0x7FFF_FFFF,
    ensures
        found == find_piece(
            cells@,
            occ@,
            cutoff as int,
            total as int,
            sentinel(cutoff as int),
            0,
        ),
{
    let mut best: Piece = (0, 0, ((cutoff - 1) as i32, 0, 0));
    let mut q: usize = 0;
    let n = occ.len();
    while q < n
        invariant
            q <= n,
            n == occ@.len(),
            cells@ == bitmap_cells(*grid),
            row_major_sorted(bitmap_cells(*grid)),
            within(bitmap_cells(*grid), bitmap_shape(*grid).0 as int, bitmap_shape(*grid).1 as int),
            1 <= cutoff <= 0x7FFF_FFFF,
            forall|k: int| 0 <= k < occ@.len() ==> (#[trigger] occ@[k]).1 < 0x7FFF_FFFF,
            find_piece(cells@, occ@, cutoff as int, total as int, sentinel(cutoff as int), 0)
                == find_piece(cells@, occ@, cutoff as int, total as int, best, q as int),
        decreases n - q,
    {
        let (stride, count) = occ[q];
        let next_q = if q + 1 == n {
            0
        } else {
            q + 1
        };
        proof {
            if q + 1 == n {
                assert((q + 1) % (n as int) == 0) by (nonlinear_arith)
                    requires
                        q + 1 == n,
                        n > 0,
                ;
            } else {
                assert((q + 1) % (n as int) == q + 1) by (nonlinear_arith)
                    requires
                        0 <= q + 1 < n,
                ;
            }
        }
        let next_count = occ[next_q].1;
        let pattern: Pattern = (count as i32 + 1, stride.0, stride.1);
        best = sweep_origins(grid, cells, &pattern, next_count, total, best);
        if best.2.0 as i64 >= cutoff as i64 {
            return Some(best);
        }
        q += 1;
    }
    None
}

/// The occurrences with the count of a stride lessened.
fn lessen_count(occ: &mut LinkedHashMap<Stride, u32>, s: Stride, by: u32)
    requires
        distinct_keys(occurrence_entries(*old(occ))),
    ensures
        occurrence_entries(*final(occ)) == lessen(occurrence_entries(*old(occ)), s, by as int),
{
    let ghost before = occurrence_entries(*occ);
    match occurrences_get(occ, s) {
        Some(count) => {
            let left: u32 = if count >= by {
                count - by
            } else {
                0
            };
            occurrences_set(occ, s, left);
            proof {
                let after = occurrence_entries(*occ);
                assert forall|k: int| 0 <= k < before.len() implies after[k] == lessen(
                    before,
                    s,
                    by as int,
                )[k] by {
                    if before[k].0 == s {
                        lemma_lookup_at(before, k);
                    }
                }
                assert(after =~= lessen(before, s, by as int));
            }
        },
        None => {
            proof {
                assert forall|k: int| 0 <= k < before.len() implies before[k] == lessen(
                    before,
                    s,
                    by as int,
                )[k] by {
                    if before[k].0 == s {
                        assert(has_key(before, s));
                    }
                }
                assert(before =~= lessen(before, s, by as int));
            }
        },
    }
}

/// Some origin probed with the pattern gives the piece.
pub open spec fn from_probe(cells: Seq<Cell>, pattern: Pattern, r: Piece) -> bool {
    exists|k: int|
        0 <= k < cells.len() && r == probe(cells, (#[trigger] cells[k]).0, cells[k].1, pattern)
}

/// A sweep returns the best piece it was given or a longer one that a probe
/// gave.
pub proof fn lemma_sweep(
    cells: Seq<Cell>,
    pattern: Pattern,
    next_count: int,
    total: int,
    best: Piece,
    idx: int,
)
    requires
        0 <= idx,
    ensures
        ({
            let r = sweep(cells, pattern, next_count, total, best, idx);
            r == best || (r.2.0 > best.2.0 && from_probe(cells, pattern, r))
        }),
    decreases cells.len() - idx,
{
    if idx < cells.len() {
        let cand = probe(cells, cells[idx].0, cells[idx].1, pattern);
        let b = better(cand, best);
        if !(b.2.0 >= next_count + 1 || b.2.0 >= total - idx - 1) {
            lemma_sweep(cells, pattern, next_count, total, b, idx + 1);
        }
    }
}

/// The piece that a search finds has at least `cutoff` cells and was given
/// by a probe with the pattern of one of the strides.
pub proof fn lemma_find(
    cells: Seq<Cell>,
    occ: Seq<Occurrence>,
    cutoff: int,
    total: int,
    best: Piece,
    q: int,
)
    requires
        0 <= q,
        best.2.0 < cutoff,
    ensures
        find_piece(cells, occ, cutoff, total, best, q) matches Some(r) ==> r.2.0 >= cutoff
            && exists|m: int| q <= m < occ.len() && from_probe(cells, probe_pattern(#[trigger] occ[m]), r),
    decreases occ.len() - q,
{
    if q < occ.len() {
        let pattern = probe_pattern(occ[q]);
        let next = occ[(q + 1) % (occ.len() as int)].1 as int;
        lemma_sweep(cells, pattern, next, total, best, 0);
        let b = sweep(cells, pattern, next, total, best, 0);
        if b.2.0 >= cutoff {
            assert(from_probe(cells, probe_pattern(occ[q]), b));
        } else {
            lemma_find(cells, occ, cutoff, total, b, q + 1);
        }
    }
}

/// A probe that gave at least one cell gave a piece that fits: its cells
/// are origins that are not absorbed, and it is no longer than its pattern.
pub proof fn lemma_probe_fits(cells: Seq<Cell>, x: usize, y: usize, pattern: Pattern)
    requires
        probe(cells, x, y, pattern).2.0 >= 1,
        pattern.0 >= 1,
    ensures
        fits(cells, probe(cells, x, y, pattern)),
        probe(cells, x, y, pattern).2.0 <= pattern.0,
        probe(cells, x, y, pattern).0 == x,
        probe(cells, x, y, pattern).1 == y,
        probe(cells, x, y, pattern).2.1 == pattern.1,
        probe(cells, x, y, pattern).2.2 == pattern.2,
{
    let p: Piece = (x, y, pattern);
    let r = probe(cells, x, y, pattern);
    lemma_free_run(cells, p, 1);
    assert forall|k: int| 1 <= k < r.2.0 implies uncovered_at(cells, #[trigger] piece_cell(r, k)) by {
        assert(piece_cell(r, k) == piece_cell(p, k));
    }
    assert(piece_cell(r, 0) == piece_cell(p, 0));
}

/// The claimed cells among the first `upto` are no more than `upto`.
proof fn lemma_count_le(cells: Seq<Cell>, upto: int)
    requires
        0 <= upto,
    ensures
        0 <= count_claimed(cells, upto) <= upto,
    decreases upto,
{
    if upto > 0 {
        lemma_count_le(cells, upto - 1);
    }
}

/// Where cells are claimed and none is freed, the count of the claimed does
/// not fall, and it rises where a free cell is claimed.
proof fn lemma_count_rises(before: Seq<Cell>, after: Seq<Cell>, at: int, upto: int)
    requires
        0 <= upto <= before.len(),
        before.len() == after.len(),
        forall|k: int| 0 <= k < before.len() ==> ((#[trigger] before[k]).2 ==> after[k].2),
        0 <= at < before.len(),
        !before[at].2,
        after[at].2,
    ensures
        count_claimed(after, upto) >= count_claimed(before, upto) + if at < upto {
            1int
        } else {
            0int
        },
    decreases upto,
{
    if upto > 0 {
        lemma_count_rises(before, after, at, upto - 1);
        assert(before[upto - 1].2 ==> after[upto - 1].2);
    }
}

/// Committing a piece that fits claims at least its origin.
proof fn lemma_commit_claims(cells: Seq<Cell>, p: Piece)
    requires
        fits(cells, p),
        p.2.0 >= 1,
    ensures
        count_claimed(place(cells, p), cells.len() as int) >= count_claimed(
            cells,
            cells.len() as int,
        ) + 1,
        count_claimed(cells, cells.len() as int) + 1 <= cells.len(),
        same_positions(place(cells, p), cells),
{
    let at = choose|a: int|
        0 <= a < cells.len() && #[trigger] cells[a].0 == piece_cell(p, 0).0 && cells[a].1
            == piece_cell(p, 0).1 && cells[a].2 == false;
    let after = place(cells, p);
    assert(after[at].2) by {
        assert(piece_cell(p, 0) == (cells[at].0 as int, cells[at].1 as int));
    }
    lemma_count_rises(cells, after, at, cells.len() as int);
    lemma_count_le(after, cells.len() as int);
}

/// Folds the repetitions of one group of origins, all of the shape
/// `low_order_id`, into shapes of the next order.
///
/// The strides between the pairs of origins that lie in the window are
/// counted and ranked: most occurrences first, then the shorter stride,
/// then the one seen first. The origins are laid out on a grid. Then, as
/// long as a piece of at least `piece_cutoff` repetitions is found, the
/// first such piece in ranking order of the strides is committed: its
/// origins are absorbed, the count of its stride is lessened by the steps
/// it takes, and its shape is emitted with the next id, or with the id of
/// the shape emitted last where the two are the same. The ids start at
/// `start_id`. Returns the shapes and the pieces emitted, `None` where
/// there are none.
///
/// The strides inside the window must be fewer than 2^31 - 1, so that the
/// count of a stride and one more fit 31 bits; a group of no more than
/// 65536 origins always has as few. The ids from `start_id` on, one for
/// each origin, must fit 31 bits.
pub fn compute_metapatterns(
    origins_list: &Vec<(i32, i32)>,
    piece_cutoff: usize,
    start_id: i32,
    low_order_id: i32,
    min_stride: usize,
    max_stride: usize,
) -> (found: Option<(Vec<(i32, MetaPattern)>, Vec<(MetaPatternPiece, i32)>)>)
    requires
        origins_valid(origins_list@),
        piece_cutoff >= 2,
        strides_of(
            origins_list@,
            origins_list@.len() as int,
            min_stride as int,
            max_stride as int,
        ).len() < 0x7FFF_FFFF,
        0 <= start_id,
        start_id + origins_list@.len() <= i32::MAX,
    ensures
        match found {
            Some((shapes, pieces)) => {
                &&& shapes@.len() > 0
                &&& shapes@ == group_fold(
                    origins_list@,
                    piece_cutoff as int,
                    start_id,
                    low_order_id,
                    min_stride as int,
                    max_stride as int,
                ).shapes
                &&& pieces@ == group_fold(
                    origins_list@,
                    piece_cutoff as int,
                    start_id,
                    low_order_id,
                    min_stride as int,
                    max_stride as int,
                ).pieces
            },
            None => group_fold(
                origins_list@,
                piece_cutoff as int,
                start_id,
                low_order_id,
                min_stride as int,
                max_stride as int,
            ).shapes.len() == 0,
        },
{
    if origins_list.len() < piece_cutoff {
        return None;
    }
    match collect_strides(origins_list, min_stride, max_stride) {
        Some(strides) => fold_group(
            origins_list,
            &strides,
            piece_cutoff,
            start_id,
            low_order_id,
            min_stride,
            max_stride,
        ),
        None => None,
    }
}

/// Folds a group of at least `piece_cutoff` origins whose strides were
/// collected.
fn fold_group(
    origins_list: &Vec<(i32, i32)>,
    strides: &Vec<Stride>,
    piece_cutoff: usize,
    start_id: i32,
    low_order_id: i32,
    min_stride: usize,
    max_stride: usize,
) -> (found: Option<(Vec<(i32, MetaPattern)>, Vec<(MetaPatternPiece, i32)>)>)
    requires
        origins_valid(origins_list@),
        piece_cutoff >= 2,
        origins_list@.len() >= piece_cutoff,
        strides@ == strides_of(
            origins_list@,
            origins_list@.len() as int,
            min_stride as int,
            max_stride as int,
        ),
        strides@.len() < 0x7FFF_FFFF,
        0 <= start_id,
        start_id + origins_list@.len() <= i32::MAX,
    ensures
        match found {
            Some((shapes, pieces)) => {
                &&& shapes@.len() > 0
                &&& shapes@ == group_fold(
                    origins_list@,
                    piece_cutoff as int,
                    start_id,
                    low_order_id,
                    min_stride as int,
                    max_stride as int,
                ).shapes
                &&& pieces@ == group_fold(
                    origins_list@,
                    piece_cutoff as int,
                    start_id,
                    low_order_id,
                    min_stride as int,
                    max_stride as int,
                ).pieces
            },
            None => group_fold(
                origins_list@,
                piece_cutoff as int,
                start_id,
                low_order_id,
                min_stride as int,
                max_stride as int,
            ).shapes.len() == 0,
        },
{
    let total = origins_list.len();
    let counts = count_strides(strides);
    let ranking = rank_occurrences(&counts);
    proof {
        lemma_counted_distinct(strides@, strides@.len() as int);
        lemma_ranked_distinct(counts@, counts@.len() as int);
    }
    let mut occ = occurrences_collect(&ranking);
    let mut grid = lay_out(origins_list);
    let mut shapes = patterns_new();
    let mut pieces = pieces_new();
    let ghost mut made: Seq<Piece> = Seq::empty();
    let ghost start = unfolded(origins_list@, min_stride as int, max_stride as int);
    let ghost fuel0 = start.cells.len();
    let ghost mut fuel: nat = fuel0;
    let mut done = false;
    proof {
        crate::absorb::lemma_unfolded_inv(
            origins_list@,
            piece_cutoff as int,
            start_id,
            low_order_id,
            min_stride as int,
            max_stride as int,
        );
        lemma_count_le(start.cells, start.cells.len() as int);
        let listed = occurrence_entries(occ);
        assert forall|k: int| 0 <= k < listed.len() implies (#[trigger] listed[k]).1
            < 0x7FFF_FFFF by {
            assert(counts@.contains(listed[k]));
            let m = choose|m: int| 0 <= m < counts@.len() && counts@[m] == listed[k];
            assert(counts@[m].1 <= strides@.len());
        }
    }
    while !done
        invariant
            total == origins_list@.len(),
            2 <= piece_cutoff <= total,
            0 <= start_id,
            start_id + total <= i32::MAX,
            start == unfolded(origins_list@, min_stride as int, max_stride as int),
            fuel0 == start.cells.len(),
            fuel0 <= total,
            row_major_sorted(start.cells),
            all_free(start.cells),
            made.len() == piece_entries(pieces).len(),
            crate::absorb::fold_inv(
                start.cells,
                origins_list@,
                Folding {
                    cells: bitmap_cells(grid),
                    occ: occurrence_entries(occ),
                    shapes: pattern_entries(shapes),
                    pieces: piece_entries(pieces),
                },
                made,
                piece_cutoff as int,
                start_id,
                low_order_id,
            ),
            row_major_sorted(bitmap_cells(grid)),
            within(bitmap_cells(grid), bitmap_shape(grid).0 as int, bitmap_shape(grid).1 as int),
            bitmap_cells(grid).len() == fuel0,
            forall|k: int|
                0 <= k < occurrence_entries(occ).len() ==> (#[trigger] occurrence_entries(occ)[k]).1
                    < 0x7FFF_FFFF,
            fuel + count_claimed(bitmap_cells(grid), fuel0 as int) >= fuel0,
            piece_entries(pieces).len() + fuel <= fuel0,
            pattern_entries(shapes).len() <= piece_entries(pieces).len(),
            pattern_entries(shapes).len() > 0 ==> pattern_entries(shapes).last().0 == start_id
                + pattern_entries(shapes).len() - 1,
            !done ==> folded(
                start,
                piece_cutoff as int,
                total as int,
                start_id,
                low_order_id,
                fuel0,
            ) == folded(
                Folding {
                    cells: bitmap_cells(grid),
                    occ: occurrence_entries(occ),
                    shapes: pattern_entries(shapes),
                    pieces: piece_entries(pieces),
                },
                piece_cutoff as int,
                total as int,
                start_id,
                low_order_id,
                fuel,
            ),
            done ==> folded(
                start,
                piece_cutoff as int,
                total as int,
                start_id,
                low_order_id,
                fuel0,
            ) == (Folding {
                cells: bitmap_cells(grid),
                occ: occurrence_entries(occ),
                shapes: pattern_entries(shapes),
                pieces: piece_entries(pieces),
            }),
        decreases fuel, if done { 0int } else { 1int },
    {
        let ghost st = Folding {
            cells: bitmap_cells(grid),
            occ: occurrence_entries(occ),
            shapes: pattern_entries(shapes),
            pieces: piece_entries(pieces),
        };
        let cells = bitmap_entries(&grid);
        let listed = occurrences_to_vec(&occ);
        match find_best(&grid, &cells, &listed, piece_cutoff, total) {
            None => {
                done = true;
            },
            Some(best) => {
                proof {
                    lemma_find(
                        st.cells,
                        st.occ,
                        piece_cutoff as int,
                        total as int,
                        sentinel(piece_cutoff as int),
                        0,
                    );
                    let m = choose|m: int|
                        0 <= m < st.occ.len() && from_probe(
                            st.cells,
                            probe_pattern(#[trigger] st.occ[m]),
                            best,
                        );
                    let pattern = probe_pattern(st.occ[m]);
                    let k = choose|k: int|
                        0 <= k < st.cells.len() && best == probe(
                            st.cells,
                            (#[trigger] st.cells[k]).0,
                            st.cells[k].1,
                            pattern,
                        );
                    lemma_probe_fits(st.cells, st.cells[k].0, st.cells[k].1, pattern);
                    lemma_commit_claims(st.cells, best);
                    crate::spsearch::lemma_same_positions(
                        place(st.cells, best),
                        st.cells,
                        bitmap_shape(grid).0 as int,
                        bitmap_shape(grid).1 as int,
                    );
                    assert(fuel > 0);
                    crate::absorb::lemma_commit_puts(
                        start.cells,
                        origins_list@,
                        st,
                        made,
                        best,
                        piece_cutoff as int,
                        total as int,
                        start_id,
                        low_order_id,
                    );
                    crate::absorb::lemma_commit_step(
                        start.cells,
                        origins_list@,
                        st,
                        made,
                        best,
                        piece_cutoff as int,
                        total as int,
                        start_id,
                        low_order_id,
                    );
                }
                mark_piece(&mut grid, &best);
                lessen_count(&mut occ, (best.2.1, best.2.2), (best.2.0 - 1) as u32);
                let id: i32 = match patterns_back(&shapes) {
                    None => start_id,
                    Some((last_id, last)) => {
                        if last.0.0 == best.2.0 && last.0.1 == best.2.1 && last.0.2 == best.2.2 {
                            last_id
                        } else {
                            last_id + 1
                        }
                    },
                };
                let _ = patterns_insert(&mut shapes, id, (best.2, 0, Some(low_order_id)));
                let _ = pieces_insert(&mut pieces, (best.0, best.1), id);
                proof {
                    fuel = (fuel - 1) as nat;
                    made = made.push(best);
                    let next = commit(st, best, start_id, low_order_id);
                    assert(next.cells == bitmap_cells(grid));
                    assert(next.occ == occurrence_entries(occ));
                    assert(next.shapes == pattern_entries(shapes));
                    assert(next.pieces == piece_entries(pieces));
                }
            },
        }
    }
    let emitted = patterns_to_vec(&shapes);
    if emitted.len() > 0 {
        Some((emitted, pieces_to_vec(&pieces)))
    } else {
        None
    }
}

/// Shapes by id and pieces by origin, oldest entry first.
pub struct Inventory {
    pub pats: Seq<(i32, MetaPattern)>,
    pub pieces: Seq<(MetaPatternPiece, i32)>,
}

/// The ids of the shapes of order `dim - 1` that pieces among the first
/// `upto` name, each once, in the order in which they first appear; the
/// single points do not count.
pub open spec fn level_ids(inv: Inventory, dim: int, upto: int) -> Seq<i32>
    decreases upto,
{
    if upto <= 0 {
        Seq::empty()
    } else {
        let before = level_ids(inv, dim, upto - 1);
        let id = inv.pieces[upto - 1].1;
        if id == SINGLE || order_of(inv.pats, id) != dim - 1 || before.contains(id) {
            before
        } else {
            before.push(id)
        }
    }
}

/// The origins of the pieces of shape `id` among the first `upto`, in the
/// order of the pieces.
pub open spec fn group_origins(pieces: Seq<(MetaPatternPiece, i32)>, id: i32, upto: int) -> Seq<
    (i32, i32),
>
    decreases upto,
{
    if upto <= 0 {
        Seq::empty()
    } else if pieces[upto - 1].1 == id {
        group_origins(pieces, id, upto - 1).push(
            (pieces[upto - 1].0.0 as i32, pieces[upto - 1].0.1 as i32),
        )
    } else {
        group_origins(pieces, id, upto - 1)
    }
}

/// The first id that is free: one more than the greatest id on record, 0
/// where there is none.
pub open spec fn free_id(pats: Seq<(i32, MetaPattern)>, upto: int) -> int
    decreases upto,
{
    if upto <= 0 {
        0
    } else if pats[upto - 1].0 + 1 > free_id(pats, upto - 1) {
        pats[upto - 1].0 + 1
    } else {
        free_id(pats, upto - 1)
    }
}

/// What the groups of a level emit.
pub struct Emitted {
    pub shapes: Seq<(i32, MetaPattern)>,
    pub pieces: Seq<(MetaPatternPiece, i32)>,
}

/// What the first `upto` groups of a level emit, group after group; the ids
/// of a group follow those of the groups before.
pub open spec fn fold_groups(
    inv: Inventory,
    ids: Seq<i32>,
    upto: int,
    cutoff: int,
    start_id: int,
    min_stride: int,
    max_stride: int,
) -> Emitted
    decreases upto,
{
    if upto <= 0 {
        Emitted { shapes: Seq::empty(), pieces: Seq::empty() }
    } else {
        let before = fold_groups(inv, ids, upto - 1, cutoff, start_id, min_stride, max_stride);
        let f = group_fold(
            group_origins(inv.pieces, ids[upto - 1], inv.pieces.len() as int),
            cutoff,
            (start_id + before.shapes.len()) as i32,
            ids[upto - 1],
            min_stride,
            max_stride,
        );
        Emitted { shapes: before.shapes + f.shapes, pieces: before.pieces + f.pieces }
    }
}

/// The entries with the first `upto` of `add` put in, one after the other.
pub open spec fn put_all<K, V>(s: Seq<(K, V)>, add: Seq<(K, V)>, upto: int) -> Seq<(K, V)>
    decreases upto,
{
    if upto <= 0 {
        s
    } else {
        put(put_all(s, add, upto - 1), add[upto - 1].0, add[upto - 1].1)
    }
}

/// The pieces without those that stand on the steps `1` to `upto - 1` of
/// the line from `origin`.
pub open spec fn line_dissolved(
    pieces: Seq<(MetaPatternPiece, i32)>,
    origin: MetaPatternPiece,
    triple: Pattern,
    upto: int,
) -> Seq<(MetaPatternPiece, i32)>
    decreases upto,
{
    if upto <= 1 {
        pieces
    } else {
        let before = line_dissolved(pieces, origin, triple, upto - 1);
        let row = origin.0 + (upto - 1) * triple.1;
        let col = origin.1 + (upto - 1) * triple.2;
        if 0 <= row <= usize::MAX && 0 <= col <= usize::MAX {
            without_key(before, (row as usize, col as usize))
        } else {
            before
        }
    }
}

/// The inventory after the first `upto` of the pieces `fresh` were settled:
/// the shape of each gets the order `dim`, and the pieces that it absorbed
/// are dissolved.
pub open spec fn settled(inv: Inventory, fresh: Seq<(MetaPatternPiece, i32)>, dim: int, upto: int) -> Inventory
    decreases upto,
{
    if upto <= 0 {
        inv
    } else {
        let before = settled(inv, fresh, dim, upto - 1);
        let (origin, id) = fresh[upto - 1];
        match lookup(before.pats, id) {
            None => before,
            Some(shape) => Inventory {
                pats: with_order(before.pats, id, dim as i32),
                pieces: line_dissolved(before.pieces, origin, shape.0, shape.0.0 as int),
            },
        }
    }
}

/// The pieces among the first `upto` whose id lies in `lo .. hi`.
pub open spec fn pieces_between(pieces: Seq<(MetaPatternPiece, i32)>, lo: int, hi: int, upto: int) -> Seq<
    (MetaPatternPiece, i32),
>
    decreases upto,
{
    if upto <= 0 {
        Seq::empty()
    } else if lo <= pieces[upto - 1].1 < hi {
        pieces_between(pieces, lo, hi, upto - 1).push(pieces[upto - 1])
    } else {
        pieces_between(pieces, lo, hi, upto - 1)
    }
}

/// Every origin fits 31 bits.
pub open spec fn origins_small(pieces: Seq<(MetaPatternPiece, i32)>) -> bool {
    forall|k: int|
        0 <= k < pieces.len() ==> (#[trigger] pieces[k]).0.0 <= i32::MAX && pieces[k].0.1
            <= i32::MAX
}

/// A group can be folded with ids from `from` on. A group of fewer than
/// `cutoff` origins always can: it emits nothing. Of any other group the
/// strides inside the window are fewer than 2^31 - 1, so that the count of
/// a stride and one more fit 31 bits, and the ids from `from` on, one for
/// each origin, fit 31 bits.
pub open spec fn group_fits(
    origins: Seq<(i32, i32)>,
    cutoff: int,
    from: int,
    min_stride: int,
    max_stride: int,
) -> bool {
    origins.len() >= cutoff ==> {
        &&& strides_of(origins, origins.len() as int, min_stride, max_stride).len() < 0x7FFF_FFFF
        &&& from + origins.len() <= i32::MAX
    }
}

/// The group `u` of a level can be folded with the ids that the groups
/// before it have left.
pub open spec fn fits_at(
    inv: Inventory,
    ids: Seq<i32>,
    u: int,
    cutoff: int,
    start_id: int,
    min_stride: int,
    max_stride: int,
) -> bool {
    group_fits(
        group_origins(inv.pieces, ids[u], inv.pieces.len() as int),
        cutoff,
        start_id + fold_groups(inv, ids, u, cutoff, start_id, min_stride, max_stride).shapes.len(),
        min_stride,
        max_stride,
    )
}

/// The groups of a level can be folded: every origin fits 31 bits, and
/// every group can be folded with the ids that the groups before it have
/// left.
pub open spec fn level_fits(
    inv: Inventory,
    dim: int,
    cutoff: int,
    min_stride: int,
    max_stride: int,
) -> bool {
    let ids = level_ids(inv, dim, inv.pieces.len() as int);
    let start_id = free_id(inv.pats, inv.pats.len() as int);
    &&& origins_small(inv.pieces)
    &&& forall|u: int|
        0 <= u < ids.len() ==> #[trigger] fits_at(
            inv,
            ids,
            u,
            cutoff,
            start_id,
            min_stride,
            max_stride,
        )
}

/// One level: the pieces of each shape of order `dim - 1` are folded, group
/// after group; the shapes and pieces that the groups emit are merged into
/// the inventory, each new piece taking the place of the piece at its
/// origin; then every new piece is settled.
pub open spec fn level_up(inv: Inventory, dim: int, cutoff: int, min_stride: int, max_stride: int) -> Inventory {
    let ids = level_ids(inv, dim, inv.pieces.len() as int);
    let start_id = free_id(inv.pats, inv.pats.len() as int);
    let out = fold_groups(inv, ids, ids.len() as int, cutoff, start_id, min_stride, max_stride);
    let merged = Inventory {
        pats: put_all(inv.pats, out.shapes, out.shapes.len() as int),
        pieces: put_all(inv.pieces, out.pieces, out.pieces.len() as int),
    };
    let fresh = pieces_between(
        merged.pieces,
        start_id,
        start_id + out.shapes.len(),
        merged.pieces.len() as int,
    );
    settled(merged, fresh, dim, fresh.len() as int)
}

/// The levels `dim ..= target`, one after the other; the second component
/// tells whether every level could be folded. The levels end at the first
/// that cannot.
pub open spec fn raised(
    inv: Inventory,
    dim: int,
    target: int,
    cutoff: int,
    min_stride: int,
    max_stride: int,
) -> (Inventory, bool)
    decreases target - dim + 1,
{
    if dim > target {
        (inv, true)
    } else if !level_fits(inv, dim, cutoff, min_stride, max_stride) {
        (inv, false)
    } else {
        raised(
            level_up(inv, dim, cutoff, min_stride, max_stride),
            dim + 1,
            target,
            cutoff,
            min_stride,
            max_stride,
        )
    }
}

/// The first id that is free among the shapes.
fn first_free_id(shapes: &Vec<(i32, MetaPattern)>) -> (id: i64)
    ensures
        id == free_id(shapes@, shapes@.len() as int),
        0 <= id <= 0x8000_0000,
{
    let mut id: i64 = 0;
    let mut k: usize = 0;
    while k < shapes.len()
        invariant
            k <= shapes@.len(),
            id == free_id(shapes@, k as int),
            0 <= id <= 0x8000_0000,
        decreases shapes.len() - k,
    {
        if shapes[k].0 as i64 + 1 > id {
            id = shapes[k].0 as i64 + 1;
        }
        k += 1;
    }
    id
}

/// Whether the list holds the id.
fn holds_id(ids: &Vec<i32>, id: i32) -> (held: bool)
    ensures
        held == ids@.contains(id),
{
    let mut k: usize = 0;
    while k < ids.len()
        invariant
            k <= ids@.len(),
            forall|m: int| 0 <= m < k ==> ids@[m] != id,
        decreases ids.len() - k,
    {
        if ids[k] == id {
            return true;
        }
        k += 1;
    }
    false
}

/// The ids of the groups of a level.
fn groups_of_level(
    meta_patterns: &LinkedHashMap<i32, MetaPattern>,
    entries: &Vec<(MetaPatternPiece, i32)>,
    dim: usize,
) -> (ids: Vec<i32>)
    requires
        2 <= dim <= 0x7FFF,
    ensures
        ids@ == level_ids(
            Inventory { pats: pattern_entries(*meta_patterns), pieces: entries@ },
            dim as int,
            entries@.len() as int,
        ),
{
    let ghost inv = Inventory { pats: pattern_entries(*meta_patterns), pieces: entries@ };
    let mut ids: Vec<i32> = Vec::new();
    let mut k: usize = 0;
    while k < entries.len()
        invariant
            k <= entries@.len(),
            2 <= dim <= 0x7FFF,
            inv == (Inventory { pats: pattern_entries(*meta_patterns), pieces: entries@ }),
            ids@ == level_ids(inv, dim as int, k as int),
        decreases entries.len() - k,
    {
        let id = entries[k].1;
        if id != SINGLE {
            let order: i32 = match patterns_get(meta_patterns, id) {
                Some(shape) => shape.1,
                None => 0,
            };
            if order as i64 == dim as i64 - 1 && !holds_id(&ids, id) {
                ids.push(id);
            }
        }
        k += 1;
    }
    ids
}

/// The origins of the pieces of one shape.
fn origins_of_group(entries: &Vec<(MetaPatternPiece, i32)>, id: i32) -> (origins: Vec<(i32, i32)>)
    requires
        forall|k: int|
            0 <= k < entries@.len() ==> (#[trigger] entries@[k]).0.0 <= i32::MAX && entries@[k].0.1
                <= i32::MAX,
    ensures
        origins@ == group_origins(entries@, id, entries@.len() as int),
        origins_valid(origins@),
{
    let mut origins: Vec<(i32, i32)> = Vec::new();
    let mut k: usize = 0;
    while k < entries.len()
        invariant
            k <= entries@.len(),
            forall|m: int|
                0 <= m < entries@.len() ==> (#[trigger] entries@[m]).0.0 <= i32::MAX
                    && entries@[m].0.1 <= i32::MAX,
            origins@ == group_origins(entries@, id, k as int),
            origins_valid(origins@),
        decreases entries.len() - k,
    {
        if entries[k].1 == id {
            let (row, col) = entries[k].0;
            origins.push((row as i32, col as i32));
        }
        k += 1;
    }
    origins
}

/// Whether every origin fits 31 bits.
fn origins_fit(entries: &Vec<(MetaPatternPiece, i32)>) -> (fit: bool)
    ensures
        fit == origins_small(entries@),
{
    let mut k: usize = 0;
    while k < entries.len()
        invariant
            k <= entries@.len(),
            forall|m: int|
                0 <= m < k ==> (#[trigger] entries@[m]).0.0 <= i32::MAX && entries@[m].0.1
                    <= i32::MAX,
        decreases entries.len() - k,
    {
        if entries[k].0.0 > i32::MAX as usize || entries[k].0.1 > i32::MAX as usize {
            proof {
                assert(!(entries@[k as int].0.0 <= i32::MAX && entries@[k as int].0.1 <= i32::MAX));
            }
            return false;
        }
        k += 1;
    }
    true
}

/// Folds one group with ids from `from` on and appends what it emits.
/// Reports whether the group could be folded; where it could not, nothing
/// is appended.
fn fold_one(
    origins: &Vec<(i32, i32)>,
    id: i32,
    piece_cutoff: usize,
    from: i128,
    min_stride: usize,
    max_stride: usize,
    shapes: &mut Vec<(i32, MetaPattern)>,
    pieces: &mut Vec<(MetaPatternPiece, i32)>,
) -> (fit: bool)
    requires
        origins_valid(origins@),
        piece_cutoff >= 2,
        0 <= from,
    ensures
        fit == group_fits(
            origins@,
            piece_cutoff as int,
            from as int,
            min_stride as int,
            max_stride as int,
        ),
        fit ==> final(shapes)@ == old(shapes)@ + group_fold(
            origins@,
            piece_cutoff as int,
            from as i32,
            id,
            min_stride as int,
            max_stride as int,
        ).shapes,
        fit ==> final(pieces)@ == old(pieces)@ + group_fold(
            origins@,
            piece_cutoff as int,
            from as i32,
            id,
            min_stride as int,
            max_stride as int,
        ).pieces,
        !fit ==> final(shapes)@ == old(shapes)@ && final(pieces)@ == old(pieces)@,
{
    let ghost f = group_fold(
        origins@,
        piece_cutoff as int,
        from as i32,
        id,
        min_stride as int,
        max_stride as int,
    );
    if origins.len() < piece_cutoff {
        proof {
            assert(f.shapes =~= Seq::<(i32, MetaPattern)>::empty());
            assert(f.pieces =~= Seq::<(MetaPatternPiece, i32)>::empty());
            assert(shapes@ + f.shapes =~= shapes@);
            assert(pieces@ + f.pieces =~= pieces@);
        }
        return true;
    }
    if from > i32::MAX as i128 || origins.len() as i128 > i32::MAX as i128 - from {
        return false;
    }
    let strides = match collect_strides(origins, min_stride, max_stride) {
        Some(strides) => strides,
        None => {
            return false;
        },
    };
    let found = fold_group(
        origins,
        &strides,
        piece_cutoff,
        from as i32,
        id,
        min_stride,
        max_stride,
    );
    match found {
        Some((mut more_shapes, mut more_pieces)) => {
            shapes.append(&mut more_shapes);
            pieces.append(&mut more_pieces);
        },
        None => {
            proof {
                assert(f.shapes =~= Seq::<(i32, MetaPattern)>::empty());
                lemma_no_shapes_no_pieces(
                    origins@,
                    piece_cutoff as int,
                    from as i32,
                    id,
                    min_stride as int,
                    max_stride as int,
                );
                assert(shapes@ + f.shapes =~= shapes@);
                assert(pieces@ + f.pieces =~= pieces@);
            }
        },
    }
    true
}

/// A level with a group that cannot be folded cannot be folded.
proof fn lemma_level_refused(inv: Inventory, dim: int, u: int, cutoff: int, min_stride: int, max_stride: int)
    requires
        0 <= u < level_ids(inv, dim, inv.pieces.len() as int).len(),
        !fits_at(
            inv,
            level_ids(inv, dim, inv.pieces.len() as int),
            u,
            cutoff,
            free_id(inv.pats, inv.pats.len() as int),
            min_stride,
            max_stride,
        ),
    ensures
        !level_fits(inv, dim, cutoff, min_stride, max_stride),
{
}

/// Folds the groups of a level, one after the other. `None` where the level
/// cannot be folded.
#[verifier::rlimit(60)]
fn fold_level(
    meta_patterns: &LinkedHashMap<i32, MetaPattern>,
    entries: &Vec<(MetaPatternPiece, i32)>,
    dim: usize,
    piece_cutoff: usize,
    min_stride: usize,
    max_stride: usize,
) -> (found: Option<(Vec<(i32, MetaPattern)>, Vec<(MetaPatternPiece, i32)>, i64)>)
    requires
        2 <= dim <= 0x7FFF,
        piece_cutoff >= 2,
    ensures
        ({
            let inv = Inventory { pats: pattern_entries(*meta_patterns), pieces: entries@ };
            let ids = level_ids(inv, dim as int, entries@.len() as int);
            let start_id = free_id(inv.pats, inv.pats.len() as int);
            match found {
                Some((shapes, pieces, first)) => {
                    let out = fold_groups(
                        inv,
                        ids,
                        ids.len() as int,
                        piece_cutoff as int,
                        start_id,
                        min_stride as int,
                        max_stride as int,
                    );
                    &&& level_fits(
                        inv,
                        dim as int,
                        piece_cutoff as int,
                        min_stride as int,
                        max_stride as int,
                    )
                    &&& shapes@ == out.shapes
                    &&& pieces@ == out.pieces
                    &&& first == start_id
                },
                None => !level_fits(
                    inv,
                    dim as int,
                    piece_cutoff as int,
                    min_stride as int,
                    max_stride as int,
                ),
            }
        }),
{
    let ghost inv = Inventory { pats: pattern_entries(*meta_patterns), pieces: entries@ };
    if !origins_fit(entries) {
        proof {
            assert(!level_fits(
                inv,
                dim as int,
                piece_cutoff as int,
                min_stride as int,
                max_stride as int,
            ));
        }
        return None;
    }
    let shape_list = patterns_to_vec(meta_patterns);
    let start_id = first_free_id(&shape_list);
    let ids = groups_of_level(meta_patterns, entries, dim);
    // the origins of every group
    let mut groups: Vec<Vec<(i32, i32)>> = Vec::new();
    let mut g: usize = 0;
    while g < ids.len()
        invariant
            g <= ids@.len(),
            groups@.len() == g,
            inv == (Inventory { pats: pattern_entries(*meta_patterns), pieces: entries@ }),
            ids@ == level_ids(inv, dim as int, entries@.len() as int),
            forall|k: int|
                0 <= k < entries@.len() ==> (#[trigger] entries@[k]).0.0 <= i32::MAX
                    && entries@[k].0.1 <= i32::MAX,
            forall|m: int|
                0 <= m < g ==> (#[trigger] groups@[m])@ == group_origins(
                    entries@,
                    ids@[m],
                    entries@.len() as int,
                ) && origins_valid(groups@[m]@),
        decreases ids.len() - g,
    {
        let origins = origins_of_group(entries, ids[g]);
        groups.push(origins);
        g += 1;
    }
    let mut shapes: Vec<(i32, MetaPattern)> = Vec::new();
    let mut pieces: Vec<(MetaPatternPiece, i32)> = Vec::new();
    let mut g: usize = 0;
    proof {
        assert(shapes@ =~= fold_groups(
            inv,
            ids@,
            0,
            piece_cutoff as int,
            start_id as int,
            min_stride as int,
            max_stride as int,
        ).shapes);
        assert(pieces@ =~= fold_groups(
            inv,
            ids@,
            0,
            piece_cutoff as int,
            start_id as int,
            min_stride as int,
            max_stride as int,
        ).pieces);
    }
    while g < ids.len()
        invariant
            g <= ids@.len(),
            groups@.len() == ids@.len(),
            piece_cutoff >= 2,
            0 <= start_id <= 0x8000_0000,
            inv == (Inventory { pats: pattern_entries(*meta_patterns), pieces: entries@ }),
            ids@ == level_ids(inv, dim as int, entries@.len() as int),
            start_id == free_id(inv.pats, inv.pats.len() as int),
            forall|k: int|
                0 <= k < entries@.len() ==> (#[trigger] entries@[k]).0.0 <= i32::MAX
                    && entries@[k].0.1 <= i32::MAX,
            forall|m: int|
                0 <= m < ids@.len() ==> (#[trigger] groups@[m])@ == group_origins(
                    entries@,
                    ids@[m],
                    entries@.len() as int,
                ) && origins_valid(groups@[m]@),
            forall|u: int|
                0 <= u < g ==> #[trigger] fits_at(
                    inv,
                    ids@,
                    u,
                    piece_cutoff as int,
                    start_id as int,
                    min_stride as int,
                    max_stride as int,
                ),
            shapes@ == fold_groups(
                inv,
                ids@,
                g as int,
                piece_cutoff as int,
                start_id as int,
                min_stride as int,
                max_stride as int,
            ).shapes,
            pieces@ == fold_groups(
                inv,
                ids@,
                g as int,
                piece_cutoff as int,
                start_id as int,
                min_stride as int,
                max_stride as int,
            ).pieces,
        decreases ids.len() - g,
    {
        let from: i128 = start_id as i128 + shapes.len() as i128;
        let fit = fold_one(
            &groups[g],
            ids[g],
            piece_cutoff,
            from,
            min_stride,
            max_stride,
            &mut shapes,
            &mut pieces,
        );
        if !fit {
            proof {
                lemma_level_refused(
                    inv,
                    dim as int,
                    g as int,
                    piece_cutoff as int,
                    min_stride as int,
                    max_stride as int,
                );
            }
            return None;
        }
        proof {
            assert(fits_at(
                inv,
                ids@,
                g as int,
                piece_cutoff as int,
                start_id as int,
                min_stride as int,
                max_stride as int,
            ));
        }
        g += 1;
    }
    proof {
        assert(origins_small(inv.pieces));
        assert(level_fits(
            inv,
            dim as int,
            piece_cutoff as int,
            min_stride as int,
            max_stride as int,
        ));
    }
    Some((shapes, pieces, start_id))
}

/// A folding records a shape with every piece it commits: while it has no
/// shape it has no piece.
proof fn lemma_folded_pieces(
    st: Folding,
    cutoff: int,
    total: int,
    start_id: i32,
    low_id: i32,
    fuel: nat,
)
    requires
        st.pieces.len() > 0 ==> st.shapes.len() > 0,
    ensures
        folded(st, cutoff, total, start_id, low_id, fuel).pieces.len() > 0 ==> folded(
            st,
            cutoff,
            total,
            start_id,
            low_id,
            fuel,
        ).shapes.len() > 0,
    decreases fuel,
{
    if fuel > 0 {
        match find_piece(st.cells, st.occ, cutoff, total, sentinel(cutoff), 0) {
            None => {},
            Some(best) => {
                lemma_folded_pieces(
                    commit(st, best, start_id, low_id),
                    cutoff,
                    total,
                    start_id,
                    low_id,
                    (fuel - 1) as nat,
                );
            },
        }
    }
}

/// A group that emits no shape emits no piece.
proof fn lemma_no_shapes_no_pieces(
    origins: Seq<(i32, i32)>,
    cutoff: int,
    start_id: i32,
    low_id: i32,
    min_stride: int,
    max_stride: int,
)
    requires
        group_fold(origins, cutoff, start_id, low_id, min_stride, max_stride).shapes.len() == 0,
    ensures
        group_fold(origins, cutoff, start_id, low_id, min_stride, max_stride).pieces
            == Seq::<(MetaPatternPiece, i32)>::empty(),
{
    let start = unfolded(origins, min_stride, max_stride);
    if origins.len() >= cutoff {
        lemma_folded_pieces(start, cutoff, origins.len() as int, start_id, low_id, start.cells.len());
    }
    assert(group_fold(origins, cutoff, start_id, low_id, min_stride, max_stride).pieces
        =~= Seq::<(MetaPatternPiece, i32)>::empty());
}

/// The pieces among the entries whose id lies in `lo .. hi`.
fn collect_between(entries: &Vec<(MetaPatternPiece, i32)>, lo: i128, hi: i128) -> (found: Vec<
    (MetaPatternPiece, i32),
>)
    ensures
        found@ == pieces_between(entries@, lo as int, hi as int, entries@.len() as int),
{
    let mut found: Vec<(MetaPatternPiece, i32)> = Vec::new();
    let mut k: usize = 0;
    while k < entries.len()
        invariant
            k <= entries@.len(),
            found@ == pieces_between(entries@, lo as int, hi as int, k as int),
        decreases entries.len() - k,
    {
        let id = entries[k].1 as i128;
        if lo <= id && id < hi {
            found.push(entries[k]);
        }
        k += 1;
    }
    found
}

/// The first pieces of a list of shape records with origins, entered by
/// origin, each entry the newest when it comes.
pub open spec fn listed_pieces(list: Seq<(OriginUwc, i32)>, upto: int) -> Seq<
    (MetaPatternPiece, i32),
>
    decreases upto,
{
    if upto <= 0 {
        Seq::empty()
    } else {
        put(listed_pieces(list, upto - 1), (list[upto - 1].0.0, list[upto - 1].0.1), list[upto - 1].1)
    }
}

/// The pattern that a one-axis shape record stands for.
pub open spec fn record_pattern(uwc: OriginUwc) -> Pattern {
    ((uwc.2.1@[0] + 1) as i32, uwc.2.2@[0], uwc.2.2@[1])
}

/// The shapes of the first records of a list: for each id the pattern of
/// the first record that names it, as a shape of order one.
pub open spec fn listed_shapes(list: Seq<(OriginUwc, i32)>, upto: int) -> Seq<(i32, MetaPattern)>
    decreases upto,
{
    if upto <= 0 {
        Seq::empty()
    } else {
        let before = listed_shapes(list, upto - 1);
        if has_key(before, list[upto - 1].1) {
            before
        } else {
            before.push((list[upto - 1].1, (record_pattern(list[upto - 1].0), 1i32, None::<i32>)))
        }
    }
}

/// Every record of the list has one axis: an offset and two strides.
pub open spec fn records_valid(list: Seq<(OriginUwc, i32)>) -> bool {
    forall|k: int|
        0 <= k < list.len() ==> (#[trigger] list[k]).0.2.1@.len() >= 1 && list[k].0.2.2@.len() >= 2
            && list[k].0.2.1@[0] < i32::MAX
}

/// An inventory whose order is being raised.
pub struct SpAugment {
    pub nrows: usize,
    pub ncols: usize,
    pub nnz: usize,
    meta_patterns: LinkedHashMap<i32, MetaPattern>,
    meta_pattern_pieces: LinkedHashMap<MetaPatternPiece, i32>,
}

impl SpAugment {
    /// The rows, columns and nonzeros of the matrix.
    pub closed spec fn dims(&self) -> (usize, usize, usize) {
        (self.nrows, self.ncols, self.nnz)
    }

    /// The shapes and the pieces.
    pub closed spec fn inventory(&self) -> Inventory {
        Inventory {
            pats: pattern_entries(self.meta_patterns),
            pieces: piece_entries(self.meta_pattern_pieces),
        }
    }

    /// The inventory of a list of one-axis shape records with their origins
    /// and ids: every piece is entered by its origin, and for every id the
    /// pattern of the first record that names it is recorded as a shape of
    /// order one.
    pub fn from_1d_origin_uwc_list(origin_uwc_list: Vec<(OriginUwc, i32)>, nrows: usize, ncols: usize, nnz: usize) -> (made:
        SpAugment)
        requires
            records_valid(origin_uwc_list@),
        ensures
            made.dims() == (nrows, ncols, nnz),
            made.inventory().pieces == listed_pieces(
                origin_uwc_list@,
                origin_uwc_list@.len() as int,
            ),
            made.inventory().pats == listed_shapes(origin_uwc_list@, origin_uwc_list@.len() as int),
    {
        let mut meta_pattern_pieces = pieces_new();
        let mut meta_patterns = patterns_new();
        let mut k: usize = 0;
        while k < origin_uwc_list.len()
            invariant
                k <= origin_uwc_list@.len(),
                records_valid(origin_uwc_list@),
                piece_entries(meta_pattern_pieces) == listed_pieces(origin_uwc_list@, k as int),
                pattern_entries(meta_patterns) == listed_shapes(origin_uwc_list@, k as int),
                distinct_keys(pattern_entries(meta_patterns)),
            decreases origin_uwc_list.len() - k,
        {
            let id = origin_uwc_list[k].1;
            let (x, y, (n, i, j)) = orig_uwc_to_piece_1d(&origin_uwc_list[k].0);
            let _ = pieces_insert(&mut meta_pattern_pieces, (x, y), id);
            let ghost before = pattern_entries(meta_patterns);
            match patterns_get(&meta_patterns, id) {
                Some(_) => {},
                None => {
                    proof {
                        lemma_put(before, id, ((n, i, j), 1i32, None::<i32>));
                    }
                    let _ = patterns_insert(&mut meta_patterns, id, ((n, i, j), 1, None));
                },
            }
            k += 1;
        }
        SpAugment { nrows, ncols, nnz, meta_patterns, meta_pattern_pieces }
    }

    /// The number of rows of the matrix.
    pub fn nrows(&self) -> (n: usize)
        ensures
            n == self.dims().0,
    {
        self.nrows
    }

    /// The number of columns of the matrix.
    pub fn ncols(&self) -> (n: usize)
        ensures
            n == self.dims().1,
    {
        self.ncols
    }

    /// The number of nonzeros of the matrix.
    pub fn nnz(&self) -> (n: usize)
        ensures
            n == self.dims().2,
    {
        self.nnz
    }

    /// The shapes by id.
    pub fn get_metapatterns(&self) -> (shapes: LinkedHashMap<i32, MetaPattern>)
        ensures
            pattern_entries(shapes) == self.inventory().pats,
    {
        patterns_clone(&self.meta_patterns)
    }

    /// The pieces by origin.
    pub fn get_metapattern_pieces(&self) -> (pieces: LinkedHashMap<MetaPatternPiece, i32>)
        ensures
            piece_entries(pieces) == self.inventory().pieces,
    {
        pieces_clone(&self.meta_pattern_pieces)
    }

    /// Dissolves the pieces on the steps of a line behind its origin.
    fn dissolve_line(&mut self, origin: MetaPatternPiece, triple: Pattern)
        ensures
            final(self).dims() == old(self).dims(),
            final(self).inventory().pats == old(self).inventory().pats,
            final(self).inventory().pieces == line_dissolved(
                old(self).inventory().pieces,
                origin,
                triple,
                triple.0 as int,
            ),
    {
        let (n, i, j) = triple;
        let mut k: i32 = 1;
        while k < n
            invariant
                1 <= k,
                k <= n || n < 1,
                n < 1 ==> k == 1,
                (n, i, j) == triple,
                self.dims() == old(self).dims(),
                self.inventory().pats == old(self).inventory().pats,
                self.inventory().pieces == line_dissolved(
                    old(self).inventory().pieces,
                    origin,
                    triple,
                    k as int,
                ),
            decreases n - k,
        {
            proof {
                lemma_step_bound(k as int, i as int);
                lemma_step_bound(k as int, j as int);
            }
            let row: i128 = origin.0 as i128 + (k as i128) * (i as i128);
            let col: i128 = origin.1 as i128 + (k as i128) * (j as i128);
            if 0 <= row && row <= usize::MAX as i128 && 0 <= col && col <= usize::MAX as i128 {
                let _ = pieces_remove(&mut self.meta_pattern_pieces, (row as usize, col as usize));
            }
            k += 1;
        }
    }

    /// One level of the raising. Reports whether the level could be folded;
    /// where it could not, nothing changes.
    fn raise_level(&mut self, dim: usize, piece_cutoff: usize, min_stride: usize, max_stride: usize) -> (fit:
        bool)
        requires
            2 <= dim <= 0x7FFF,
            piece_cutoff >= 2,
        ensures
            final(self).dims() == old(self).dims(),
            fit == level_fits(
                old(self).inventory(),
                dim as int,
                piece_cutoff as int,
                min_stride as int,
                max_stride as int,
            ),
            fit ==> final(self).inventory() == level_up(
                old(self).inventory(),
                dim as int,
                piece_cutoff as int,
                min_stride as int,
                max_stride as int,
            ),
            !fit ==> final(self).inventory() == old(self).inventory(),
    {
        let ghost inv = self.inventory();
        let entries = pieces_to_vec(&self.meta_pattern_pieces);
        let (shapes, pieces, start_id) = match fold_level(
            &self.meta_patterns,
            &entries,
            dim,
            piece_cutoff,
            min_stride,
            max_stride,
        ) {
            Some(found) => found,
            None => {
                return false;
            },
        };
        // merge what the groups emitted
        let mut k: usize = 0;
        while k < shapes.len()
            invariant
                k <= shapes@.len(),
                self.dims() == old(self).dims(),
                self.inventory().pieces == inv.pieces,
                self.inventory().pats == put_all(inv.pats, shapes@, k as int),
            decreases shapes.len() - k,
        {
            let _ = patterns_insert(&mut self.meta_patterns, shapes[k].0, shapes[k].1);
            k += 1;
        }
        let mut k: usize = 0;
        while k < pieces.len()
            invariant
                k <= pieces@.len(),
                self.dims() == old(self).dims(),
                self.inventory().pats == put_all(inv.pats, shapes@, shapes@.len() as int),
                self.inventory().pieces == put_all(inv.pieces, pieces@, k as int),
            decreases pieces.len() - k,
        {
            let _ = pieces_insert(&mut self.meta_pattern_pieces, pieces[k].0, pieces[k].1);
            k += 1;
        }
        let ghost merged = self.inventory();
        // settle the new pieces
        let now = pieces_to_vec(&self.meta_pattern_pieces);
        let fresh = collect_between(
            &now,
            start_id as i128,
            start_id as i128 + shapes.len() as i128,
        );
        proof {
            let ids = level_ids(inv, dim as int, inv.pieces.len() as int);
            let out = fold_groups(
                inv,
                ids,
                ids.len() as int,
                piece_cutoff as int,
                start_id as int,
                min_stride as int,
                max_stride as int,
            );
            assert(shapes@ == out.shapes);
            assert(pieces@ == out.pieces);
            assert(merged.pats == put_all(inv.pats, out.shapes, out.shapes.len() as int));
            assert(merged.pieces == put_all(inv.pieces, out.pieces, out.pieces.len() as int));
            assert(merged == (Inventory {
                pats: put_all(inv.pats, out.shapes, out.shapes.len() as int),
                pieces: put_all(inv.pieces, out.pieces, out.pieces.len() as int),
            }));
            assert(fresh@ == pieces_between(
                merged.pieces,
                start_id as int,
                start_id + out.shapes.len(),
                merged.pieces.len() as int,
            ));
        }
        let mut k: usize = 0;
        while k < fresh.len()
            invariant
                k <= fresh@.len(),
                2 <= dim <= 0x7FFF,
                self.dims() == old(self).dims(),
                self.inventory().pats == settled(merged, fresh@, dim as int, k as int).pats,
                self.inventory().pieces == settled(merged, fresh@, dim as int, k as int).pieces,
            decreases fresh.len() - k,
        {
            let (origin, id) = fresh[k];
            match patterns_get(&self.meta_patterns, id) {
                None => {},
                Some(shape) => {
                    proof {
                        let pats = self.inventory().pats;
                        if !has_key(pats, id) {
                        }
                    }
                    patterns_set_order(&mut self.meta_patterns, id, dim as i32);
                    self.dissolve_line(origin, shape.0);
                },
            }
            k += 1;
        }
        proof {
            let end = settled(merged, fresh@, dim as int, fresh@.len() as int);
            assert(self.inventory() == end);
        }
        true
    }

    /// Raises the inventory to shapes of order `target_dim`, level by level
    /// from order 2 on. At every level the pieces of each shape of the order
    /// below are folded; see [`compute_metapatterns`].
    ///
    /// A cutoff below 2 is against the rules: nothing is folded into
    /// pieces of one repetition. A target beyond 32767, and a level that
    /// cannot be folded, are not supported; the levels before it stay
    /// raised.
    pub fn augment_dimensionality(
        &mut self,
        target_dim: usize,
        piece_cutoff: usize,
        min_stride: usize,
        max_stride: usize,
    ) -> (done: Result<(), ErrorKind>)
        ensures
            final(self).dims() == old(self).dims(),
            piece_cutoff < 2 ==> done == Err::<(), ErrorKind>(ErrorKind::Policy)
                && final(self).inventory() == old(self).inventory(),
            piece_cutoff >= 2 && target_dim > 0x7FFF ==> done == Err::<(), ErrorKind>(
                ErrorKind::Unsupported,
            ) && final(self).inventory() == old(self).inventory(),
            piece_cutoff >= 2 && target_dim <= 0x7FFF ==> {
                let end = raised(
                    old(self).inventory(),
                    2,
                    target_dim as int,
                    piece_cutoff as int,
                    min_stride as int,
                    max_stride as int,
                );
                &&& final(self).inventory() == end.0
                &&& done == if end.1 {
                    Ok::<(), ErrorKind>(())
                } else {
                    Err::<(), ErrorKind>(ErrorKind::Unsupported)
                }
            },
    {
        if piece_cutoff < 2 {
            return Err(ErrorKind::Policy);
        }
        if target_dim > 0x7FFF {
            return Err(ErrorKind::Unsupported);
        }
        let mut dim: usize = 2;
        while dim <= target_dim
            invariant
                2 <= dim <= target_dim + 1 || (target_dim < 2 && dim == 2),
                target_dim <= 0x7FFF,
                piece_cutoff >= 2,
                self.dims() == old(self).dims(),
                raised(
                    old(self).inventory(),
                    2,
                    target_dim as int,
                    piece_cutoff as int,
                    min_stride as int,
                    max_stride as int,
                ) == raised(
                    self.inventory(),
                    dim as int,
                    target_dim as int,
                    piece_cutoff as int,
                    min_stride as int,
                    max_stride as int,
                ),
            decreases target_dim + 1 - dim,
        {
            if !self.raise_level(dim, piece_cutoff, min_stride, max_stride) {
                return Err(ErrorKind::Unsupported);
            }
            dim += 1;
        }
        Ok(())
    }
}

} // verus!
