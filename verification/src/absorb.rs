//! What raising the order of an inventory keeps: the inventory stays
//! consistent, and it stands for the same cells.

use vstd::prelude::*;
use crate::cover::{claimed_by, cover_inv, disjoint, lemma_place_keeps, piece_free};
use crate::grid::{
    Cell, all_free, coords_within, has_entry, lemma_stored_cells, row_major_sorted, stored_cells,
};
use crate::inventory::{SINGLE, axis_cells, piece_cells, pieces_ok, shape_cells, shapes_ok};
use crate::ordered::{
    distinct_keys, has_key, lemma_lookup_at, lemma_put, lemma_without_key, lemma_without_key_absent,
    lookup, put, with_order, without_key,
};
use crate::spaugment::{
    Emitted, Folding, Inventory, Occurrence, Stride, as_coords, commit, counted, find_piece,
    fits_at, fold_groups, folded, free_id, from_probe, group_fold, group_origins, in_window,
    lemma_find, lemma_probe_fits, lemma_rank_place_bounds, lessen, level_fits, level_ids, level_up,
    line_dissolved, listed_pieces, listed_shapes, next_id, occurrences, origins_small,
    origins_valid, pieces_between, place_of, probe, probe_pattern, put_all, raised, rank_place,
    ranked, record_pattern, records_valid, sentinel, settled, stride_between, strides_from,
    strides_of, unfolded,
};
use crate::spsearch::{SearchState, piece_cell, place, uncovered_at};
use crate::utils::{
    MetaPattern, MetaPatternPiece, OriginUwc, Pattern, Piece, axes, nested_ok, order_of, sub_id,
};

verus! {

/// The key stands among the first `upto` entries of the list.
pub open spec fn key_among<K, V>(add: Seq<(K, V)>, key: K, upto: int) -> bool {
    exists|i: int| 0 <= i < upto && (#[trigger] add[i]).0 == key
}

/// Putting entries with different keys into a map of distinct keys leaves
/// distinct keys; a key of the entries holds the value of its entry, every
/// other key what it held.
pub proof fn lemma_put_all<K, V>(s: Seq<(K, V)>, add: Seq<(K, V)>, upto: int)
    requires
        distinct_keys(s),
        distinct_keys(add),
        0 <= upto <= add.len(),
    ensures
        distinct_keys(put_all(s, add, upto)),
        forall|i: int|
            0 <= i < upto ==> lookup(put_all(s, add, upto), (#[trigger] add[i]).0) == Some(add[i].1),
        forall|key: K|
            !key_among(add, key, upto) ==> lookup(put_all(s, add, upto), key) == lookup(s, key),
        forall|key: K|
            has_key(put_all(s, add, upto), key) <==> (has_key(s, key) || key_among(add, key, upto)),
    decreases upto,
{
    let out = put_all(s, add, upto);
    if upto > 0 {
        lemma_put_all(s, add, upto - 1);
        let before = put_all(s, add, upto - 1);
        let (k, v) = add[upto - 1];
        lemma_put(before, k, v);
        assert forall|i: int| 0 <= i < upto implies lookup(out, (#[trigger] add[i]).0) == Some(
            add[i].1,
        ) by {
            if i < upto - 1 {
                assert(add[i].0 != add[upto - 1].0);
            }
        }
        assert forall|key: K| !key_among(add, key, upto) implies lookup(out, key) == lookup(
            s,
            key,
        ) by {
            assert(!key_among(add, key, upto - 1)) by {
                if key_among(add, key, upto - 1) {
                    let i = choose|i: int| 0 <= i < upto - 1 && (#[trigger] add[i]).0 == key;
                    assert(0 <= i < upto && add[i].0 == key);
                }
            }
            if key == k {
                assert(add[upto - 1].0 == key);
            }
        }
        assert forall|key: K| has_key(out, key) <==> (has_key(s, key) || key_among(add, key, upto)) by {
            if key_among(add, key, upto - 1) {
                let i = choose|i: int| 0 <= i < upto - 1 && (#[trigger] add[i]).0 == key;
                assert(0 <= i < upto && add[i].0 == key);
            }
            if key_among(add, key, upto) {
                let i = choose|i: int| 0 <= i < upto && (#[trigger] add[i]).0 == key;
                if i < upto - 1 {
                    assert(key_among(add, key, upto - 1));
                }
            }
            if key == k {
                assert(add[upto - 1].0 == key);
            }
        }
    } else {
        assert forall|key: K| !key_among(add, key, 0) by {}
    }
}

/// A lookup finds a value exactly where an entry holds it under the key.
pub proof fn lemma_lookup_entry<K, V>(s: Seq<(K, V)>, key: K, val: V)
    requires
        distinct_keys(s),
    ensures
        lookup(s, key) == Some(val) <==> s.contains((key, val)),
{
    if s.contains((key, val)) {
        let i = choose|i: int| 0 <= i < s.len() && s[i] == (key, val);
        lemma_lookup_at(s, i);
    }
    if lookup(s, key) == Some(val) {
        let i = choose|i: int| 0 <= i < s.len() && (#[trigger] s[i]).0 == key;
        lemma_lookup_at(s, i);
        assert(s[i] == (key, val));
    }
}

/// The position is one of the steps `1 .. upto` of the line.
pub open spec fn on_steps(origin: MetaPatternPiece, triple: Pattern, upto: int, key: MetaPatternPiece) -> bool {
    exists|k: int|
        1 <= k < upto && #[trigger] step_of(origin, triple, k) == (key.0 as int, key.1 as int)
}

/// The `k`-th step of the line from an origin.
pub open spec fn step_of(origin: MetaPatternPiece, triple: Pattern, k: int) -> (int, int) {
    (origin.0 + k * triple.1, origin.1 + k * triple.2)
}

/// Dissolving the steps of a line drops the pieces that stand on them and
/// keeps all others.
pub proof fn lemma_line_dissolved(
    pieces: Seq<(MetaPatternPiece, i32)>,
    origin: MetaPatternPiece,
    triple: Pattern,
    upto: int,
)
    requires
        distinct_keys(pieces),
    ensures
        distinct_keys(line_dissolved(pieces, origin, triple, upto)),
        forall|key: MetaPatternPiece|
            lookup(line_dissolved(pieces, origin, triple, upto), key) == if on_steps(
                origin,
                triple,
                upto,
                key,
            ) {
                None::<i32>
            } else {
                lookup(pieces, key)
            },
    decreases upto,
{
    let out = line_dissolved(pieces, origin, triple, upto);
    if upto <= 1 {
        assert forall|key: MetaPatternPiece| !on_steps(origin, triple, upto, key) by {}
    } else {
        lemma_line_dissolved(pieces, origin, triple, upto - 1);
        let before = line_dissolved(pieces, origin, triple, upto - 1);
        let row = origin.0 + (upto - 1) * triple.1;
        let col = origin.1 + (upto - 1) * triple.2;
        assert(step_of(origin, triple, upto - 1) == (row, col));
        if 0 <= row <= usize::MAX && 0 <= col <= usize::MAX {
            let gone = (row as usize, col as usize);
            lemma_without_key(before, gone);
            assert forall|key: MetaPatternPiece| lookup(out, key) == if on_steps(
                origin,
                triple,
                upto,
                key,
            ) {
                None::<i32>
            } else {
                lookup(pieces, key)
            } by {
                if on_steps(origin, triple, upto - 1, key) {
                    let k = choose|k: int|
                        1 <= k < upto - 1 && #[trigger] step_of(origin, triple, k) == (
                            key.0 as int,
                            key.1 as int,
                        );
                    assert(1 <= k < upto && step_of(origin, triple, k) == (
                        key.0 as int,
                        key.1 as int,
                    ));
                    if key == gone {
                    } else {
                        assert(lookup(out, key) == lookup(before, key));
                    }
                }
                if key == gone {
                    assert(step_of(origin, triple, upto - 1) == (key.0 as int, key.1 as int));
                } else if on_steps(origin, triple, upto, key) {
                    let k = choose|k: int|
                        1 <= k < upto && #[trigger] step_of(origin, triple, k) == (
                            key.0 as int,
                            key.1 as int,
                        );
                    assert(k != upto - 1);
                    assert(1 <= k < upto - 1 && step_of(origin, triple, k) == (
                        key.0 as int,
                        key.1 as int,
                    ));
                }
            }
        } else {
            assert forall|key: MetaPatternPiece| lookup(out, key) == if on_steps(
                origin,
                triple,
                upto,
                key,
            ) {
                None::<i32>
            } else {
                lookup(pieces, key)
            } by {
                if on_steps(origin, triple, upto, key) {
                    let k = choose|k: int|
                        1 <= k < upto && #[trigger] step_of(origin, triple, k) == (
                            key.0 as int,
                            key.1 as int,
                        );
                    assert(k != upto - 1);
                    assert(1 <= k < upto - 1 && step_of(origin, triple, k) == (
                        key.0 as int,
                        key.1 as int,
                    ));
                }
                if on_steps(origin, triple, upto - 1, key) {
                    let k = choose|k: int|
                        1 <= k < upto - 1 && #[trigger] step_of(origin, triple, k) == (
                            key.0 as int,
                            key.1 as int,
                        );
                    assert(1 <= k < upto && step_of(origin, triple, k) == (
                        key.0 as int,
                        key.1 as int,
                    ));
                }
            }
        }
    }
}

/// Every stride is a step between two of the origins, and none is counted
/// 2^31 - 1 times or more.
pub open spec fn strides_sound(occ: Seq<Occurrence>, origins: Seq<(i32, i32)>) -> bool {
    forall|q: int|
        0 <= q < occ.len() ==> (#[trigger] occ[q]).1 < 0x7FFF_FFFF && exists|a: int, b: int|
            0 <= a < b < origins.len() && occ[q].0 == #[trigger] stride_between(origins, a, b)
}

/// The strides from one origin are steps between two origins.
proof fn lemma_strides_from(origins: Seq<(i32, i32)>, a: int, upto: int, min: int, max: int)
    requires
        0 <= a,
        upto <= origins.len(),
    ensures
        strides_from(origins, a, upto, min, max).len() <= if upto > a + 1 {
            upto - a - 1
        } else {
            0
        },
        forall|k: int|
            0 <= k < strides_from(origins, a, upto, min, max).len() ==> exists|b: int|
                a < b < upto && #[trigger] strides_from(origins, a, upto, min, max)[k]
                    == #[trigger] stride_between(origins, a, b),
    decreases upto,
{
    if !(upto <= a + 1 || upto <= 0) {
        lemma_strides_from(origins, a, upto - 1, min, max);
        let prev = strides_from(origins, a, upto - 1, min, max);
        let out = strides_from(origins, a, upto, min, max);
        assert forall|k: int| 0 <= k < out.len() implies exists|b: int|
            a < b < upto && #[trigger] out[k] == #[trigger] stride_between(origins, a, b) by {
            if k < prev.len() {
                let b = choose|b: int|
                    a < b < upto - 1 && #[trigger] prev[k] == #[trigger] stride_between(
                        origins,
                        a,
                        b,
                    );
                assert(a < b < upto && out[k] == stride_between(origins, a, b));
            } else {
                assert(out[k] == stride_between(origins, a, upto - 1));
            }
        }
    }
}

/// The strides of a group are steps between two of its origins.
proof fn lemma_strides_of(origins: Seq<(i32, i32)>, upto: int, min: int, max: int)
    requires
        0 <= upto <= origins.len(),
    ensures
        strides_of(origins, upto, min, max).len() <= upto * origins.len(),
        forall|k: int|
            0 <= k < strides_of(origins, upto, min, max).len() ==> exists|a: int, b: int|
                0 <= a < b < origins.len() && #[trigger] strides_of(origins, upto, min, max)[k]
                    == #[trigger] stride_between(origins, a, b),
    decreases upto,
{
    if upto > 0 {
        lemma_strides_of(origins, upto - 1, min, max);
        lemma_strides_from(origins, upto - 1, origins.len() as int, min, max);
        let prev = strides_of(origins, upto - 1, min, max);
        let more = strides_from(origins, upto - 1, origins.len() as int, min, max);
        let out = strides_of(origins, upto, min, max);
        assert((upto - 1) * origins.len() + origins.len() == upto * origins.len())
            by (nonlinear_arith);
        assert forall|k: int| 0 <= k < out.len() implies exists|a: int, b: int|
            0 <= a < b < origins.len() && #[trigger] out[k] == #[trigger] stride_between(
                origins,
                a,
                b,
            ) by {
            if k < prev.len() {
                assert(out[k] == prev[k]);
                let (a, b) = choose|a: int, b: int|
                    0 <= a < b < origins.len() && #[trigger] prev[k] == #[trigger] stride_between(
                        origins,
                        a,
                        b,
                    );
                assert(0 <= a < b < origins.len() && out[k] == stride_between(origins, a, b));
            } else {
                let m = k - prev.len();
                assert(out[k] == more[m]);
                let b = choose|b: int|
                    upto - 1 < b < origins.len() && #[trigger] more[m] == #[trigger] stride_between(
                        origins,
                        upto - 1,
                        b,
                    );
                assert(0 <= upto - 1 < b < origins.len() && out[k] == stride_between(
                    origins,
                    upto - 1,
                    b,
                ));
            }
        }
    } else {
        assert(0 * origins.len() == 0) by (nonlinear_arith);
    }
}

/// The place of a stride lies among the occurrences looked at, or behind
/// all of them.
proof fn lemma_place_of(occ: Seq<Occurrence>, s: Stride, upto: int)
    requires
        0 <= upto <= occ.len(),
    ensures
        0 <= place_of(occ, s, upto) < upto || place_of(occ, s, upto) == occ.len(),
        place_of(occ, s, upto) < upto ==> occ[place_of(occ, s, upto)].0 == s,
    decreases upto,
{
    if upto > 0 && occ[upto - 1].0 != s {
        lemma_place_of(occ, s, upto - 1);
    }
}

/// Counted strides are strides of the list, none counted more often than
/// the list is long.
proof fn lemma_counted(strides: Seq<Stride>, upto: int)
    requires
        0 <= upto <= strides.len(),
        strides.len() < 0x7FFF_FFFF,
    ensures
        forall|q: int|
            0 <= q < counted(strides, upto).len() ==> 1 <= (#[trigger] counted(strides, upto)[q]).1
                <= upto && strides.contains(counted(strides, upto)[q].0),
    decreases upto,
{
    if upto > 0 {
        lemma_counted(strides, upto - 1);
        let before = counted(strides, upto - 1);
        let s = strides[upto - 1];
        let out = counted(strides, upto);
        lemma_place_of(before, s, before.len() as int);
        let at = place_of(before, s, before.len() as int);
        assert forall|q: int| 0 <= q < out.len() implies 1 <= (#[trigger] out[q]).1 <= upto
            && strides.contains(out[q].0) by {
            if at < before.len() {
                if q != at {
                    assert(out[q] == before[q]);
                }
            } else {
                if q < before.len() {
                    assert(out[q] == before[q]);
                }
            }
        }
    }
}

/// Ranked occurrences are the occurrences counted.
proof fn lemma_ranked(occ: Seq<Occurrence>, upto: int)
    requires
        0 <= upto <= occ.len(),
    ensures
        ranked(occ, upto).len() == upto,
        forall|q: int| 0 <= q < upto ==> occ.contains(#[trigger] ranked(occ, upto)[q]),
    decreases upto,
{
    if upto > 0 {
        lemma_ranked(occ, upto - 1);
        let before = ranked(occ, upto - 1);
        let e = occ[upto - 1];
        lemma_rank_place_bounds(before, e, 0);
        let at = rank_place(before, e, 0);
        let out = ranked(occ, upto);
        assert forall|q: int| 0 <= q < upto implies occ.contains(#[trigger] out[q]) by {
            if q < at {
                assert(out[q] == before[q]);
            } else if q == at {
                assert(out[q] == e);
            } else {
                assert(out[q] == before[q - 1]);
            }
        }
    }
}

/// The strides from the first origins are no more than the pairs that
/// they form with later origins.
proof fn lemma_strides_pairs(origins: Seq<(i32, i32)>, upto: int, min: int, max: int)
    requires
        0 <= upto <= origins.len(),
    ensures
        2 * strides_of(origins, upto, min, max).len() <= upto * (2 * origins.len() - upto - 1),
    decreases upto,
{
    let n = origins.len() as int;
    if upto > 0 {
        lemma_strides_pairs(origins, upto - 1, min, max);
        lemma_strides_from(origins, upto - 1, n, min, max);
        let before = strides_of(origins, upto - 1, min, max).len() as int;
        let more = strides_from(origins, upto - 1, n, min, max).len() as int;
        assert(more <= n - upto);
        assert(2 * (before + more) <= upto * (2 * n - upto - 1)) by (nonlinear_arith)
            requires
                2 * before <= (upto - 1) * (2 * n - (upto - 1) - 1),
                more <= n - upto,
        ;
    } else {
        assert(0 * (2 * n - 0 - 1) == 0) by (nonlinear_arith);
    }
}

/// A group of no more than 65536 origins has fewer than 2^31 - 1 strides,
/// whatever the window.
pub proof fn lemma_strides_few(origins: Seq<(i32, i32)>, min: int, max: int)
    requires
        origins.len() <= 0x1_0000,
    ensures
        strides_of(origins, origins.len() as int, min, max).len() < 0x7FFF_FFFF,
{
    let n = origins.len() as int;
    lemma_strides_pairs(origins, n, min, max);
    assert(n * (2 * n - n - 1) <= 0x1_0000 * 0xFFFF) by (nonlinear_arith)
        requires
            0 <= n <= 0x1_0000,
    ;
}

/// The occurrence list of a group with fewer than 2^31 - 1 strides is
/// sound.
pub proof fn lemma_occurrences(origins: Seq<(i32, i32)>, min: int, max: int)
    requires
        strides_of(origins, origins.len() as int, min, max).len() < 0x7FFF_FFFF,
    ensures
        strides_sound(occurrences(origins, min, max), origins),
{
    let n = origins.len() as int;
    let strides = strides_of(origins, n, min, max);
    lemma_strides_of(origins, n, min, max);
    let counts = counted(strides, strides.len() as int);
    lemma_counted(strides, strides.len() as int);
    let occ = ranked(counts, counts.len() as int);
    lemma_ranked(counts, counts.len() as int);
    assert forall|q: int| 0 <= q < occ.len() implies (#[trigger] occ[q]).1 < 0x7FFF_FFFF
        && exists|a: int, b: int|
        0 <= a < b < origins.len() && occ[q].0 == #[trigger] stride_between(origins, a, b) by {
        assert(counts.contains(occ[q]));
        let m = choose|m: int| 0 <= m < counts.len() && counts[m] == occ[q];
        assert(strides.contains(counts[m].0));
        let k = choose|k: int| 0 <= k < strides.len() && strides[k] == counts[m].0;
        let (a, b) = choose|a: int, b: int|
            0 <= a < b < origins.len() && #[trigger] strides[k] == #[trigger] stride_between(
                origins,
                a,
                b,
            );
        assert(0 <= a < b < origins.len() && occ[q].0 == stride_between(origins, a, b));
    }
}

/// The pieces that a folding commits from a state on, in their order.
pub open spec fn trace(
    st: Folding,
    cutoff: int,
    total: int,
    start_id: i32,
    low_id: i32,
    fuel: nat,
) -> Seq<Piece>
    decreases fuel,
{
    if fuel == 0 {
        Seq::empty()
    } else {
        match find_piece(st.cells, st.occ, cutoff, total, sentinel(cutoff), 0) {
            None => Seq::empty(),
            Some(best) => seq![best] + trace(
                commit(st, best, start_id, low_id),
                cutoff,
                total,
                start_id,
                low_id,
                (fuel - 1) as nat,
            ),
        }
    }
}

/// What a folding keeps true. `done` are the pieces committed so far, with
/// their triples; `start` are the origins of the group, laid out, none
/// absorbed.
#[verifier::opaque]
pub open spec fn fold_inv(
    start: Seq<Cell>,
    origins: Seq<(i32, i32)>,
    st: Folding,
    done: Seq<Piece>,
    cutoff: int,
    start_id: i32,
    low_id: i32,
) -> bool {
    &&& cover_inv(start, SearchState { cells: st.cells, pieces: done })
    &&& strides_sound(st.occ, origins)
    &&& st.pieces.len() == done.len()
    &&& st.shapes.len() <= done.len()
    &&& forall|i: int|
        0 <= i < done.len() ==> (#[trigger] st.pieces[i]).0 == (done[i].0, done[i].1)
    &&& forall|i: int|
        0 <= i < done.len() ==> (#[trigger] done[i]).2.0 >= cutoff && exists|a: int, b: int|
            0 <= a < b < origins.len() && (done[i].2.1, done[i].2.2) == #[trigger] stride_between(
                origins,
                a,
                b,
            )
    &&& forall|j: int|
        0 <= j < st.shapes.len() ==> (#[trigger] st.shapes[j]).0 == start_id + j && st.shapes[j].1.1
            == 0 && st.shapes[j].1.2 == Some(low_id)
    &&& forall|i: int| 0 <= i < done.len() ==> #[trigger] names_shape(st, i, done[i].2)
    &&& forall|j: int| 0 <= j < st.shapes.len() ==> #[trigger] has_piece(st, j)
}

/// The piece `i` of the folding names a shape with the triple.
pub open spec fn names_shape(st: Folding, i: int, triple: Pattern) -> bool {
    exists|j: int|
        0 <= j < st.shapes.len() && st.pieces[i].1 == (#[trigger] st.shapes[j]).0
            && st.shapes[j].1.0 == triple
}

/// The shape `j` of the folding is named by a piece.
pub open spec fn has_piece(st: Folding, j: int) -> bool {
    exists|i: int| 0 <= i < st.pieces.len() && (#[trigger] st.pieces[i]).1 == st.shapes[j].0
}

/// A folding keeps its invariant, whatever the number of its commits.
pub proof fn lemma_folded(
    start: Seq<Cell>,
    origins: Seq<(i32, i32)>,
    st: Folding,
    done: Seq<Piece>,
    cutoff: int,
    total: int,
    start_id: i32,
    low_id: i32,
    fuel: nat,
)
    requires
        row_major_sorted(start),
        all_free(start),
        cutoff >= 2,
        start_id + done.len() + fuel <= 0x7FFF_FFFF,
        0 <= start_id,
        fold_inv(start, origins, st, done, cutoff, start_id, low_id),
    ensures
        fold_inv(
            start,
            origins,
            folded(st, cutoff, total, start_id, low_id, fuel),
            done + trace(st, cutoff, total, start_id, low_id, fuel),
            cutoff,
            start_id,
            low_id,
        ),
    decreases fuel,
{
    if fuel == 0 {
        assert(done + trace(st, cutoff, total, start_id, low_id, fuel) =~= done);
    } else {
        match find_piece(st.cells, st.occ, cutoff, total, sentinel(cutoff), 0) {
            None => {
                assert(done + trace(st, cutoff, total, start_id, low_id, fuel) =~= done);
            },
            Some(best) => {
                let next = commit(st, best, start_id, low_id);
                let more = done.push(best);
                lemma_commit_step(start, origins, st, done, best, cutoff, total, start_id, low_id);
                lemma_folded(
                    start,
                    origins,
                    next,
                    more,
                    cutoff,
                    total,
                    start_id,
                    low_id,
                    (fuel - 1) as nat,
                );
                assert(done + trace(st, cutoff, total, start_id, low_id, fuel) =~= more + trace(
                    next,
                    cutoff,
                    total,
                    start_id,
                    low_id,
                    (fuel - 1) as nat,
                ));
            },
        }
    }
}

/// The piece that a search finds can be committed.
pub proof fn lemma_commit_step(
    start: Seq<Cell>,
    origins: Seq<(i32, i32)>,
    st: Folding,
    done: Seq<Piece>,
    best: Piece,
    cutoff: int,
    total: int,
    start_id: i32,
    low_id: i32,
)
    requires
        row_major_sorted(start),
        all_free(start),
        cutoff >= 2,
        start_id + done.len() < 0x7FFF_FFFF,
        0 <= start_id,
        fold_inv(start, origins, st, done, cutoff, start_id, low_id),
        find_piece(st.cells, st.occ, cutoff, total, sentinel(cutoff), 0) == Some(best),
    ensures
        fold_inv(
            start,
            origins,
            commit(st, best, start_id, low_id),
            done.push(best),
            cutoff,
            start_id,
            low_id,
        ),
{
    reveal(fold_inv);
    lemma_find(st.cells, st.occ, cutoff, total, sentinel(cutoff), 0);
    let m = choose|m: int|
        0 <= m < st.occ.len() && from_probe(st.cells, probe_pattern(#[trigger] st.occ[m]), best);
    let pattern = probe_pattern(st.occ[m]);
    let k = choose|k: int|
        0 <= k < st.cells.len() && best == probe(
            st.cells,
            (#[trigger] st.cells[k]).0,
            st.cells[k].1,
            pattern,
        );
    assert(st.occ[m].1 < 0x7FFF_FFFF);
    lemma_probe_fits(st.cells, st.cells[k].0, st.cells[k].1, pattern);
    lemma_place_keeps(start, SearchState { cells: st.cells, pieces: done }, best);
    let next = commit(st, best, start_id, low_id);
    let (a, b) = choose|a: int, b: int|
        0 <= a < b < origins.len() && st.occ[m].0 == #[trigger] stride_between(origins, a, b);
    assert((best.2.1, best.2.2) == stride_between(origins, a, b));
    lemma_lessen_sound(st.occ, origins, (best.2.1, best.2.2), best.2.0 - 1);
    lemma_commit_inv(start, origins, st, done, best, cutoff, start_id, low_id, a, b);
}

/// Lessening a count keeps the occurrences sound.
proof fn lemma_lessen_sound(occ: Seq<Occurrence>, origins: Seq<(i32, i32)>, s: Stride, by: int)
    requires
        strides_sound(occ, origins),
        by >= 0,
    ensures
        strides_sound(lessen(occ, s, by), origins),
{
    let out = lessen(occ, s, by);
    assert forall|q: int| 0 <= q < out.len() implies (#[trigger] out[q]).1 < 0x7FFF_FFFF
        && exists|a: int, b: int|
        0 <= a < b < origins.len() && out[q].0 == #[trigger] stride_between(origins, a, b) by {
        assert(occ[q].1 < 0x7FFF_FFFF);
        let (x, y) = choose|x: int, y: int|
            0 <= x < y < origins.len() && occ[q].0 == #[trigger] stride_between(origins, x, y);
        assert(out[q].0 == occ[q].0);
        assert(0 <= x < y < origins.len() && out[q].0 == stride_between(origins, x, y));
    }
}

/// One commit keeps the records of a folding in step with its pieces.
proof fn lemma_commit_inv(
    start: Seq<Cell>,
    origins: Seq<(i32, i32)>,
    st: Folding,
    done: Seq<Piece>,
    best: Piece,
    cutoff: int,
    start_id: i32,
    low_id: i32,
    a: int,
    b: int,
)
    requires
        fold_inv(start, origins, st, done, cutoff, start_id, low_id),
        cover_inv(
            start,
            SearchState { cells: place(st.cells, best), pieces: done.push(best) },
        ),
        strides_sound(commit(st, best, start_id, low_id).occ, origins),
        best.2.0 >= cutoff,
        0 <= a < b < origins.len(),
        (best.2.1, best.2.2) == stride_between(origins, a, b),
        0 <= start_id,
        start_id + done.len() < 0x7FFF_FFFF,
    ensures
        fold_inv(
            start,
            origins,
            commit(st, best, start_id, low_id),
            done.push(best),
            cutoff,
            start_id,
            low_id,
        ),
{
    reveal(fold_inv);
    let next = commit(st, best, start_id, low_id);
    let more = done.push(best);
    let id = next_id(st.shapes, best.2, start_id);
    let n = st.shapes.len() as int;
    if n > 0 {
        assert(st.shapes[n - 1].0 == start_id + n - 1);
        assert(st.shapes.last() == st.shapes[n - 1]);
    }
    assert forall|i: int| 0 <= i < more.len() implies (#[trigger] next.pieces[i]).0 == (
        more[i].0,
        more[i].1,
    ) by {
        if i < done.len() {
            assert(next.pieces[i] == st.pieces[i]);
        }
    }
    assert forall|i: int| 0 <= i < more.len() implies (#[trigger] more[i]).2.0 >= cutoff
        && exists|x: int, y: int|
        0 <= x < y < origins.len() && (more[i].2.1, more[i].2.2) == #[trigger] stride_between(
            origins,
            x,
            y,
        ) by {
        if i < done.len() {
            assert(more[i] == done[i]);
            let (x, y) = choose|x: int, y: int|
                0 <= x < y < origins.len() && (done[i].2.1, done[i].2.2)
                    == #[trigger] stride_between(origins, x, y);
            assert(0 <= x < y < origins.len() && (more[i].2.1, more[i].2.2) == stride_between(
                origins,
                x,
                y,
            ));
        } else {
            assert(0 <= a < b < origins.len() && (more[i].2.1, more[i].2.2) == stride_between(
                origins,
                a,
                b,
            ));
        }
    }
    assert forall|j: int| 0 <= j < next.shapes.len() implies (#[trigger] next.shapes[j]).0
        == start_id + j && next.shapes[j].1.1 == 0 && next.shapes[j].1.2 == Some(low_id) by {
        if j < n {
            assert(next.shapes[j] == st.shapes[j]);
        }
    }
    assert forall|i: int| 0 <= i < more.len() implies #[trigger] names_shape(
        next,
        i,
        more[i].2,
    ) by {
        if i < done.len() {
            assert(next.pieces[i] == st.pieces[i]);
            assert(names_shape(st, i, done[i].2));
            let j = choose|j: int|
                0 <= j < st.shapes.len() && st.pieces[i].1 == (#[trigger] st.shapes[j]).0
                    && st.shapes[j].1.0 == done[i].2;
            assert(next.shapes[j] == st.shapes[j]);
            assert(0 <= j < next.shapes.len() && next.pieces[i].1 == next.shapes[j].0
                && next.shapes[j].1.0 == more[i].2);
        } else {
            let j = next.shapes.len() - 1;
            assert(next.pieces[i].1 == id);
            assert(0 <= j < next.shapes.len() && next.pieces[i].1 == next.shapes[j].0
                && next.shapes[j].1.0 == more[i].2);
        }
    }
    assert forall|j: int| 0 <= j < next.shapes.len() implies #[trigger] has_piece(next, j) by {
        if j < n {
            assert(next.shapes[j] == st.shapes[j]);
            assert(has_piece(st, j));
            let i = choose|i: int|
                0 <= i < st.pieces.len() && (#[trigger] st.pieces[i]).1 == st.shapes[j].0;
            assert(next.pieces[i] == st.pieces[i]);
            assert(0 <= i < next.pieces.len() && next.pieces[i].1 == next.shapes[j].0);
        } else {
            let i = next.pieces.len() - 1;
            assert(0 <= i < next.pieces.len() && next.pieces[i].1 == next.shapes[j].0);
        }
    }
    assert(next.cells == place(st.cells, best));
    assert(next.pieces.len() == more.len());
    assert(next.shapes.len() <= more.len());
}

/// The pieces that the folding of a group commits, with their triples.
pub open spec fn group_trace(
    origins: Seq<(i32, i32)>,
    cutoff: int,
    start_id: i32,
    low_id: i32,
    min_stride: int,
    max_stride: int,
) -> Seq<Piece> {
    let start = unfolded(origins, min_stride, max_stride);
    if origins.len() < cutoff {
        Seq::empty()
    } else {
        trace(start, cutoff, origins.len() as int, start_id, low_id, start.cells.len())
    }
}

/// The folding of a group keeps the folding invariant: its pieces are
/// disjoint lines of origins of the group, and its shapes are numbered
/// from `start_id` on and named by its pieces.
pub proof fn lemma_group(
    origins: Seq<(i32, i32)>,
    cutoff: int,
    start_id: i32,
    low_id: i32,
    min_stride: int,
    max_stride: int,
)
    requires
        origins_valid(origins),
        strides_of(origins, origins.len() as int, min_stride, max_stride).len() < 0x7FFF_FFFF,
        cutoff >= 2,
        0 <= start_id,
        start_id + origins.len() <= i32::MAX,
    ensures
        row_major_sorted(stored_cells(as_coords(origins))),
        all_free(stored_cells(as_coords(origins))),
        forall|r: int, c: int|
            has_entry(stored_cells(as_coords(origins)), r, c) <==> exists|k: int|
                0 <= k < origins.len() && (#[trigger] as_coords(origins)[k]).0 == r && as_coords(
                    origins,
                )[k].1 == c,
        fold_inv(
            stored_cells(as_coords(origins)),
            origins,
            group_fold(origins, cutoff, start_id, low_id, min_stride, max_stride),
            group_trace(origins, cutoff, start_id, low_id, min_stride, max_stride),
            cutoff,
            start_id,
            low_id,
        ),
{
    let coords = as_coords(origins);
    let start = unfolded(origins, min_stride, max_stride);
    assert(coords_within(coords, 0x8000_0000, 0x8000_0000)) by {
        assert forall|k: int| 0 <= k < coords.len() implies (#[trigger] coords[k]).0 < 0x8000_0000
            && coords[k].1 < 0x8000_0000 by {
            assert(origins[k].0 >= 0 && origins[k].1 >= 0);
        }
    }
    lemma_stored_cells(coords, 0x8000_0000, 0x8000_0000);
    lemma_unfolded_inv(origins, cutoff, start_id, low_id, min_stride, max_stride);
    let none = Seq::<Piece>::empty();
    if origins.len() >= cutoff {
        lemma_folded(
            start.cells,
            origins,
            start,
            none,
            cutoff,
            origins.len() as int,
            start_id,
            low_id,
            start.cells.len(),
        );
        assert(none + trace(
            start,
            cutoff,
            origins.len() as int,
            start_id,
            low_id,
            start.cells.len(),
        ) =~= group_trace(origins, cutoff, start_id, low_id, min_stride, max_stride));
    }
}

/// The pieces hold a piece of the shape `g` at the position.
pub open spec fn held_at(pieces: Seq<(MetaPatternPiece, i32)>, pos: (int, int), g: i32) -> bool {
    0 <= pos.0 <= usize::MAX && 0 <= pos.1 <= usize::MAX && lookup(
        pieces,
        (pos.0 as usize, pos.1 as usize),
    ) == Some(g)
}

/// A line of at least two steps that does not stand still and on every
/// step of which the inventory holds a piece of the shape `g`.
pub open spec fn absorbs(inv: Inventory, origin: MetaPatternPiece, t: Pattern, g: i32) -> bool {
    &&& t.0 >= 2
    &&& (t.1 != 0 || t.2 != 0)
    &&& forall|k: int| 0 <= k < t.0 ==> held_at(inv.pieces, #[trigger] step_of(origin, t, k), g)
}

/// The new piece `i` names a new shape, and absorbs pieces of the shape
/// that the new shape repeats.
pub open spec fn piece_absorbs(inv: Inventory, out: Emitted, i: int) -> bool {
    exists|j: int|
        0 <= j < out.shapes.len() && out.pieces[i].1 == (#[trigger] out.shapes[j]).0 && absorbs(
            inv,
            out.pieces[i].0,
            out.shapes[j].1.0,
            sub_id(out.shapes[j].1),
        )
}

/// The new shape `j` is named by a new piece.
pub open spec fn shape_used(out: Emitted, j: int) -> bool {
    exists|i: int| 0 <= i < out.pieces.len() && (#[trigger] out.pieces[i]).1 == out.shapes[j].0
}

/// The triple of the shape that the new piece `i` names.
pub open spec fn triple_of(out: Emitted, i: int) -> Pattern {
    match lookup(out.shapes, out.pieces[i].1) {
        Some(shape) => shape.0,
        None => (0i32, 0i32, 0i32),
    }
}

/// What the groups of a level emit: shapes numbered from `start` on, each
/// of them over a shape of the order below that is on record and named by a
/// new piece; and pieces that absorb pieces of the inventory, no two of
/// them the same piece.
#[verifier::opaque]
pub open spec fn emitted_ok(inv: Inventory, dim: int, start: int, subs: Seq<i32>, out: Emitted) -> bool {
    &&& start + out.shapes.len() <= 0x8000_0000
    &&& forall|j: int|
        0 <= j < out.shapes.len() ==> {
            &&& (#[trigger] out.shapes[j]).0 == start + j
            &&& out.shapes[j].1.1 == 0
            &&& out.shapes[j].1.2 is Some
            &&& subs.contains(sub_id(out.shapes[j].1))
            &&& sub_id(out.shapes[j].1) != SINGLE
            &&& has_key(inv.pats, sub_id(out.shapes[j].1))
            &&& order_of(inv.pats, sub_id(out.shapes[j].1)) == dim - 1
        }
    &&& forall|i: int| 0 <= i < out.pieces.len() ==> #[trigger] piece_absorbs(inv, out, i)
    &&& forall|j: int| 0 <= j < out.shapes.len() ==> #[trigger] shape_used(out, j)
    &&& forall|i1: int, i2: int, k1: int, k2: int|
        0 <= i1 < out.pieces.len() && 0 <= i2 < out.pieces.len() && i1 != i2 && 0 <= k1
            < triple_of(out, i1).0 && 0 <= k2 < triple_of(out, i2).0 ==> #[trigger] step_of(
            out.pieces[i1].0,
            triple_of(out, i1),
            k1,
        ) != #[trigger] step_of(out.pieces[i2].0, triple_of(out, i2), k2)
}

/// The inventory is consistent.
pub open spec fn aug_ok(inv: Inventory) -> bool {
    shapes_ok(inv.pats) && pieces_ok(inv.pats, inv.pieces)
}

/// One of the first `upto` pieces has the shape `id` and stands at the
/// origin.
pub open spec fn in_group(pieces: Seq<(MetaPatternPiece, i32)>, id: i32, upto: int, origin: (i32, i32)) -> bool {
    exists|k: int|
        0 <= k < upto && (#[trigger] pieces[k]).1 == id && pieces[k].0 == (
            origin.0 as usize,
            origin.1 as usize,
        )
}

/// The position is one of the origins.
pub open spec fn listed(origins: Seq<(i32, i32)>, key: MetaPatternPiece) -> bool {
    exists|m: int| 0 <= m < origins.len() && #[trigger] as_coords(origins)[m] == key
}

/// The origins of a group are the positions of the pieces of its shape
/// among the first `upto`, each once.
pub proof fn lemma_group_origins(pieces: Seq<(MetaPatternPiece, i32)>, id: i32, upto: int)
    requires
        distinct_keys(pieces),
        origins_small(pieces),
        0 <= upto <= pieces.len(),
    ensures
        origins_valid(group_origins(pieces, id, upto)),
        group_origins(pieces, id, upto).len() <= upto,
        forall|m: int|
            0 <= m < group_origins(pieces, id, upto).len() ==> in_group(
                pieces,
                id,
                upto,
                #[trigger] group_origins(pieces, id, upto)[m],
            ),
        forall|k: int|
            0 <= k < upto && (#[trigger] pieces[k]).1 == id ==> listed(
                group_origins(pieces, id, upto),
                pieces[k].0,
            ),
        forall|a: int, b: int|
            0 <= a < b < group_origins(pieces, id, upto).len() ==> #[trigger] group_origins(
                pieces,
                id,
                upto,
            )[a] != #[trigger] group_origins(pieces, id, upto)[b],
    decreases upto,
{
    let out = group_origins(pieces, id, upto);
    if upto > 0 {
        lemma_group_origins(pieces, id, upto - 1);
        let prev = group_origins(pieces, id, upto - 1);
        let last = pieces[upto - 1];
        assert(last.0.0 <= i32::MAX && last.0.1 <= i32::MAX);
        assert forall|m: int| 0 <= m < out.len() implies in_group(pieces, id, upto, #[trigger] out[m]) by {
            if m < prev.len() {
                assert(out[m] == prev[m]);
                assert(in_group(pieces, id, upto - 1, prev[m]));
                let k = choose|k: int|
                    0 <= k < upto - 1 && (#[trigger] pieces[k]).1 == id && pieces[k].0 == (
                        prev[m].0 as usize,
                        prev[m].1 as usize,
                    );
                assert(0 <= k < upto && pieces[k].1 == id && pieces[k].0 == (
                    out[m].0 as usize,
                    out[m].1 as usize,
                ));
            } else {
                assert(0 <= upto - 1 < upto && pieces[upto - 1].1 == id && pieces[upto - 1].0 == (
                    out[m].0 as usize,
                    out[m].1 as usize,
                ));
            }
        }
        assert forall|k: int| 0 <= k < upto && (#[trigger] pieces[k]).1 == id implies listed(
            out,
            pieces[k].0,
        ) by {
            if k < upto - 1 {
                assert(listed(prev, pieces[k].0));
                let m = choose|m: int|
                    0 <= m < prev.len() && #[trigger] as_coords(prev)[m] == pieces[k].0;
                assert(out[m] == prev[m]);
                assert(as_coords(out)[m] == pieces[k].0);
            } else {
                let m = out.len() - 1;
                assert(as_coords(out)[m] == pieces[k].0);
            }
        }
        assert forall|a: int, b: int| 0 <= a < b < out.len() implies #[trigger] out[a]
            != #[trigger] out[b] by {
            if b == prev.len() {
                assert(out[a] == prev[a]);
                assert(in_group(pieces, id, upto - 1, prev[a]));
                let k = choose|k: int|
                    0 <= k < upto - 1 && (#[trigger] pieces[k]).1 == id && pieces[k].0 == (
                        prev[a].0 as usize,
                        prev[a].1 as usize,
                    );
                assert(pieces[k].0 != pieces[upto - 1].0);
            } else {
                assert(out[a] == prev[a] && out[b] == prev[b]);
            }
        }
    }
}

/// Shapes that are numbered in their order have distinct ids, and each is
/// found under its id.
pub proof fn lemma_numbered(shapes: Seq<(i32, MetaPattern)>, start: int)
    requires
        start + shapes.len() <= 0x8000_0000,
        -0x8000_0000 <= start,
        forall|j: int| 0 <= j < shapes.len() ==> (#[trigger] shapes[j]).0 == start + j,
    ensures
        distinct_keys(shapes),
        forall|j: int| 0 <= j < shapes.len() ==> lookup(shapes, (#[trigger] shapes[j]).0) == Some(shapes[j].1),
        forall|id: i32| has_key(shapes, id) <==> start <= id < start + shapes.len(),
{
    assert forall|a: int, b: int| 0 <= a < b < shapes.len() implies (#[trigger] shapes[a]).0
        != (#[trigger] shapes[b]).0 by {}
    assert forall|j: int| 0 <= j < shapes.len() implies lookup(shapes, (#[trigger] shapes[j]).0)
        == Some(shapes[j].1) by {
        lemma_lookup_at(shapes, j);
    }
    assert forall|id: i32| has_key(shapes, id) <==> start <= id < start + shapes.len() by {
        if has_key(shapes, id) {
            let j = choose|j: int| 0 <= j < shapes.len() && (#[trigger] shapes[j]).0 == id;
        }
        if start <= id < start + shapes.len() {
            assert(shapes[id - start].0 == id);
        }
    }
}

/// What one group emits is sound.
pub proof fn lemma_group_emits(
    inv: Inventory,
    g: i32,
    dim: int,
    start_id: i32,
    cutoff: int,
    min_stride: int,
    max_stride: int,
)
    requires
        aug_ok(inv),
        origins_small(inv.pieces),
        strides_of(
            group_origins(inv.pieces, g, inv.pieces.len() as int),
            group_origins(inv.pieces, g, inv.pieces.len() as int).len() as int,
            min_stride,
            max_stride,
        ).len() < 0x7FFF_FFFF,
        g != SINGLE,
        has_key(inv.pats, g),
        order_of(inv.pats, g) == dim - 1,
        cutoff >= 2,
        0 <= start_id,
        start_id + group_origins(inv.pieces, g, inv.pieces.len() as int).len() <= i32::MAX,
    ensures
        ({
            let f = group_fold(
                group_origins(inv.pieces, g, inv.pieces.len() as int),
                cutoff,
                start_id,
                g,
                min_stride,
                max_stride,
            );
            &&& emitted_ok(
                inv,
                dim,
                start_id as int,
                seq![g],
                Emitted { shapes: f.shapes, pieces: f.pieces },
            )
            &&& f.shapes.len() <= group_origins(inv.pieces, g, inv.pieces.len() as int).len()
        }),
{
    let n = inv.pieces.len() as int;
    let origins = group_origins(inv.pieces, g, n);
    let f = group_fold(origins, cutoff, start_id, g, min_stride, max_stride);
    let t = group_trace(origins, cutoff, start_id, g, min_stride, max_stride);
    let out = Emitted { shapes: f.shapes, pieces: f.pieces };
    let start = stored_cells(as_coords(origins));
    lemma_group_origins(inv.pieces, g, n);
    lemma_group(origins, cutoff, start_id, g, min_stride, max_stride);
    reveal(fold_inv);
    reveal(emitted_ok);
    assert(t.len() <= start.len()) by {
        lemma_trace_len(unfolded(origins, min_stride, max_stride), cutoff, origins.len() as int, start_id, g, start.len());
    }
    lemma_stored_len(origins);
    lemma_numbered(f.shapes, start_id as int);
    assert(seq![g].contains(g)) by {
        assert(seq![g][0] == g);
    }
    assert forall|i: int| 0 <= i < out.pieces.len() implies triple_of(out, i) == (#[trigger] t[i]).2 by {
        assert(names_shape(f, i, t[i].2));
        let j = choose|j: int|
            0 <= j < f.shapes.len() && f.pieces[i].1 == (#[trigger] f.shapes[j]).0
                && f.shapes[j].1.0 == t[i].2;
        assert(lookup(f.shapes, f.shapes[j].0) == Some(f.shapes[j].1));
    }
    assert forall|i: int| 0 <= i < out.pieces.len() implies #[trigger] piece_absorbs(inv, out, i) by {
        assert(names_shape(f, i, t[i].2));
        let j = choose|j: int|
            0 <= j < f.shapes.len() && f.pieces[i].1 == (#[trigger] f.shapes[j]).0
                && f.shapes[j].1.0 == t[i].2;
        let triple = t[i].2;
        let origin = f.pieces[i].0;
        assert(origin == (t[i].0, t[i].1));
        let (a, b) = choose|a: int, b: int|
            0 <= a < b < origins.len() && (t[i].2.1, t[i].2.2) == #[trigger] stride_between(
                origins,
                a,
                b,
            );
        assert(origins[a] != origins[b]);
        assert(origins[a].0 >= 0 && origins[b].0 >= 0 && origins[a].1 >= 0 && origins[b].1 >= 0);
        assert(triple.1 != 0 || triple.2 != 0);
        assert(piece_free(start, t[i]));
        assert forall|k: int| 0 <= k < triple.0 implies held_at(
            inv.pieces,
            #[trigger] step_of(origin, triple, k),
            g,
        ) by {
            let pos = piece_cell(t[i], k);
            assert(step_of(origin, triple, k) == pos);
            assert(uncovered_at(start, pos));
            assert(has_entry(start, pos.0, pos.1)) by {
                let e = choose|e: int|
                    0 <= e < start.len() && #[trigger] start[e].0 == pos.0 && start[e].1 == pos.1
                        && start[e].2 == false;
                assert(start[e].0 == pos.0 && start[e].1 == pos.1);
            }
            let m = choose|m: int|
                0 <= m < origins.len() && (#[trigger] as_coords(origins)[m]).0 == pos.0 && as_coords(
                    origins,
                )[m].1 == pos.1;
            assert(in_group(inv.pieces, g, n, origins[m]));
            let p = choose|p: int|
                0 <= p < n && (#[trigger] inv.pieces[p]).1 == g && inv.pieces[p].0 == (
                    origins[m].0 as usize,
                    origins[m].1 as usize,
                );
            lemma_lookup_at(inv.pieces, p);
        }
        assert(absorbs(inv, origin, f.shapes[j].1.0, sub_id(f.shapes[j].1)));
    }
    assert forall|j: int| 0 <= j < out.shapes.len() implies #[trigger] shape_used(out, j) by {
        assert(has_piece(f, j));
    }
    assert forall|i1: int, i2: int, k1: int, k2: int|
        0 <= i1 < out.pieces.len() && 0 <= i2 < out.pieces.len() && i1 != i2 && 0 <= k1
            < triple_of(out, i1).0 && 0 <= k2 < triple_of(out, i2).0 implies #[trigger] step_of(
        out.pieces[i1].0,
        triple_of(out, i1),
        k1,
    ) != #[trigger] step_of(out.pieces[i2].0, triple_of(out, i2), k2) by {
        assert(triple_of(out, i1) == t[i1].2);
        assert(triple_of(out, i2) == t[i2].2);
        assert(out.pieces[i1].0 == (t[i1].0, t[i1].1));
        assert(out.pieces[i2].0 == (t[i2].0, t[i2].1));
        if i1 < i2 {
            assert(disjoint(t[i1], t[i2]));
            assert(piece_cell(t[i1], k1) != piece_cell(t[i2], k2));
        } else {
            assert(disjoint(t[i2], t[i1]));
            assert(piece_cell(t[i2], k2) != piece_cell(t[i1], k1));
        }
    }
}

/// A folding commits no more pieces than it has fuel.
proof fn lemma_trace_len(st: Folding, cutoff: int, total: int, start_id: i32, low_id: i32, fuel: nat)
    ensures
        trace(st, cutoff, total, start_id, low_id, fuel).len() <= fuel,
    decreases fuel,
{
    if fuel > 0 {
        match find_piece(st.cells, st.occ, cutoff, total, sentinel(cutoff), 0) {
            None => {},
            Some(best) => {
                lemma_trace_len(
                    commit(st, best, start_id, low_id),
                    cutoff,
                    total,
                    start_id,
                    low_id,
                    (fuel - 1) as nat,
                );
            },
        }
    }
}

/// The origins laid out are no more than the origins.
proof fn lemma_stored_len(origins: Seq<(i32, i32)>)
    requires
        origins_valid(origins),
    ensures
        stored_cells(as_coords(origins)).len() <= origins.len(),
{
    let coords = as_coords(origins);
    assert(coords_within(coords, 0x8000_0000, 0x8000_0000)) by {
        assert forall|k: int| 0 <= k < coords.len() implies (#[trigger] coords[k]).0 < 0x8000_0000
            && coords[k].1 < 0x8000_0000 by {
            assert(origins[k].0 >= 0 && origins[k].1 >= 0);
        }
    }
    lemma_stored_cells(coords, 0x8000_0000, 0x8000_0000);
}

/// The triple of a new piece is the triple of the shape that it names.
pub proof fn lemma_triple_of(inv: Inventory, dim: int, start: int, subs: Seq<i32>, out: Emitted, i: int)
    requires
        emitted_ok(inv, dim, start, subs, out),
        -0x8000_0000 <= start,
        0 <= i < out.pieces.len(),
    ensures
        start <= out.pieces[i].1 < start + out.shapes.len(),
        out.shapes[out.pieces[i].1 - start].0 == out.pieces[i].1,
        triple_of(out, i) == out.shapes[out.pieces[i].1 - start].1.0,
        absorbs(
            inv,
            out.pieces[i].0,
            triple_of(out, i),
            sub_id(out.shapes[out.pieces[i].1 - start].1),
        ),
        subs.contains(sub_id(out.shapes[out.pieces[i].1 - start].1)),
{
    reveal(emitted_ok);
    lemma_numbered(out.shapes, start);
    assert(piece_absorbs(inv, out, i));
    let j = choose|j: int|
        0 <= j < out.shapes.len() && out.pieces[i].1 == (#[trigger] out.shapes[j]).0 && absorbs(
            inv,
            out.pieces[i].0,
            out.shapes[j].1.0,
            sub_id(out.shapes[j].1),
        );
    assert(lookup(out.shapes, out.shapes[j].0) == Some(out.shapes[j].1));
    assert(j == out.pieces[i].1 - start);
}

/// What a group emits joins what the groups before it emitted.
pub proof fn lemma_emitted_join(
    inv: Inventory,
    dim: int,
    start: int,
    subs: Seq<i32>,
    a: Emitted,
    g: i32,
    b: Emitted,
)
    requires
        0 <= start,
        emitted_ok(inv, dim, start, subs, a),
        emitted_ok(inv, dim, start + a.shapes.len(), seq![g], b),
        !subs.contains(g),
    ensures
        emitted_ok(
            inv,
            dim,
            start,
            subs.push(g),
            Emitted { shapes: a.shapes + b.shapes, pieces: a.pieces + b.pieces },
        ),
{
    let out = Emitted { shapes: a.shapes + b.shapes, pieces: a.pieces + b.pieces };
    let mid = start + a.shapes.len();
    let na = a.pieces.len() as int;
    assert(start + out.shapes.len() <= 0x8000_0000 && forall|j: int|
        0 <= j < out.shapes.len() ==> (#[trigger] out.shapes[j]).0 == start + j) by {
        reveal(emitted_ok);
        assert forall|j: int| 0 <= j < out.shapes.len() implies (#[trigger] out.shapes[j]).0
            == start + j by {
            if j < a.shapes.len() {
                assert(out.shapes[j] == a.shapes[j]);
            } else {
                assert(out.shapes[j] == b.shapes[j - a.shapes.len()]);
            }
        }
    }
    lemma_numbered(out.shapes, start);
    // the triples and what they absorb
    assert forall|i: int| 0 <= i < out.pieces.len() implies {
        let j = out.pieces[i].1 - start;
        &&& 0 <= j < out.shapes.len()
        &&& out.pieces[i].1 == out.shapes[j].0
        &&& #[trigger] triple_of(out, i) == out.shapes[j].1.0
        &&& absorbs(inv, out.pieces[i].0, out.shapes[j].1.0, sub_id(out.shapes[j].1))
        &&& (i < na ==> subs.contains(sub_id(out.shapes[j].1)))
        &&& (i >= na ==> sub_id(out.shapes[j].1) == g)
    } by {
        if i < na {
            assert(out.pieces[i] == a.pieces[i]);
            lemma_triple_of(inv, dim, start, subs, a, i);
            let j = a.pieces[i].1 - start;
            assert(out.shapes[j] == a.shapes[j]);
            assert(lookup(out.shapes, out.shapes[j].0) == Some(out.shapes[j].1));
        } else {
            assert(out.pieces[i] == b.pieces[i - na]);
            lemma_triple_of(inv, dim, mid, seq![g], b, i - na);
            let j = b.pieces[i - na].1 - mid;
            assert(out.shapes[j + a.shapes.len()] == b.shapes[j]);
            assert(lookup(out.shapes, out.shapes[j + a.shapes.len()].0) == Some(
                out.shapes[j + a.shapes.len()].1,
            ));
            let s = sub_id(b.shapes[j].1);
            assert(seq![g].contains(s));
            let w = choose|w: int| 0 <= w < seq![g].len() && seq![g][w] == s;
        }
    }
    reveal(emitted_ok);
    assert forall|j: int| 0 <= j < out.shapes.len() implies {
        &&& (#[trigger] out.shapes[j]).0 == start + j
        &&& out.shapes[j].1.1 == 0
        &&& out.shapes[j].1.2 is Some
        &&& subs.push(g).contains(sub_id(out.shapes[j].1))
        &&& sub_id(out.shapes[j].1) != SINGLE
        &&& has_key(inv.pats, sub_id(out.shapes[j].1))
        &&& order_of(inv.pats, sub_id(out.shapes[j].1)) == dim - 1
    } by {
        if j < a.shapes.len() {
            assert(out.shapes[j] == a.shapes[j]);
            let s = sub_id(a.shapes[j].1);
            assert(subs.contains(s));
            let w = choose|w: int| 0 <= w < subs.len() && subs[w] == s;
            assert(subs.push(g)[w] == s);
        } else {
            let jb = j - a.shapes.len();
            assert(out.shapes[j] == b.shapes[jb]);
            let s = sub_id(b.shapes[jb].1);
            assert(seq![g].contains(s));
            let w = choose|w: int| 0 <= w < seq![g].len() && seq![g][w] == s;
            assert(subs.push(g)[subs.len() as int] == g);
        }
    }
    assert forall|i: int| 0 <= i < out.pieces.len() implies #[trigger] piece_absorbs(inv, out, i) by {
        let j = out.pieces[i].1 - start;
        assert(triple_of(out, i) == out.shapes[j].1.0);
        assert(0 <= j < out.shapes.len() && out.pieces[i].1 == out.shapes[j].0 && absorbs(
            inv,
            out.pieces[i].0,
            out.shapes[j].1.0,
            sub_id(out.shapes[j].1),
        ));
    }
    assert forall|j: int| 0 <= j < out.shapes.len() implies #[trigger] shape_used(out, j) by {
        if j < a.shapes.len() {
            assert(out.shapes[j] == a.shapes[j]);
            assert(shape_used(a, j));
            let i = choose|i: int| 0 <= i < a.pieces.len() && (#[trigger] a.pieces[i]).1 == a.shapes[j].0;
            assert(out.pieces[i] == a.pieces[i]);
        } else {
            let jb = j - a.shapes.len();
            assert(out.shapes[j] == b.shapes[jb]);
            assert(shape_used(b, jb));
            let i = choose|i: int| 0 <= i < b.pieces.len() && (#[trigger] b.pieces[i]).1 == b.shapes[jb].0;
            assert(out.pieces[na + i] == b.pieces[i]);
        }
    }
    assert forall|i1: int, i2: int, k1: int, k2: int|
        0 <= i1 < out.pieces.len() && 0 <= i2 < out.pieces.len() && i1 != i2 && 0 <= k1
            < triple_of(out, i1).0 && 0 <= k2 < triple_of(out, i2).0 implies #[trigger] step_of(
        out.pieces[i1].0,
        triple_of(out, i1),
        k1,
    ) != #[trigger] step_of(out.pieces[i2].0, triple_of(out, i2), k2) by {
        let p1 = step_of(out.pieces[i1].0, triple_of(out, i1), k1);
        let p2 = step_of(out.pieces[i2].0, triple_of(out, i2), k2);
        let j1 = out.pieces[i1].1 - start;
        let j2 = out.pieces[i2].1 - start;
        assert(triple_of(out, i1) == out.shapes[j1].1.0);
        assert(triple_of(out, i2) == out.shapes[j2].1.0);
        if i1 < na && i2 < na {
            assert(out.pieces[i1] == a.pieces[i1] && out.pieces[i2] == a.pieces[i2]);
            lemma_triple_of(inv, dim, start, subs, a, i1);
            lemma_triple_of(inv, dim, start, subs, a, i2);
            assert(out.shapes[j1] == a.shapes[j1] && out.shapes[j2] == a.shapes[j2]);
        } else if i1 >= na && i2 >= na {
            assert(out.pieces[i1] == b.pieces[i1 - na] && out.pieces[i2] == b.pieces[i2 - na]);
            lemma_triple_of(inv, dim, mid, seq![g], b, i1 - na);
            lemma_triple_of(inv, dim, mid, seq![g], b, i2 - na);
            assert(out.shapes[j1] == b.shapes[j1 - a.shapes.len()]);
            assert(out.shapes[j2] == b.shapes[j2 - a.shapes.len()]);
        } else {
            // the two absorb pieces of different shapes
            assert(held_at(inv.pieces, p1, sub_id(out.shapes[j1].1)));
            assert(held_at(inv.pieces, p2, sub_id(out.shapes[j2].1)));
            assert(sub_id(out.shapes[j1].1) != sub_id(out.shapes[j2].1));
        }
    }
}

/// The ids of the groups of a level are different shapes of the order
/// below, each named by a piece.
pub proof fn lemma_level_ids(inv: Inventory, dim: int, upto: int)
    requires
        0 <= upto <= inv.pieces.len(),
    ensures
        level_ids(inv, dim, upto).no_duplicates(),
        forall|m: int|
            0 <= m < level_ids(inv, dim, upto).len() ==> {
                let g = #[trigger] level_ids(inv, dim, upto)[m];
                &&& g != SINGLE
                &&& order_of(inv.pats, g) == dim - 1
                &&& names_id(inv.pieces, g)
            },
    decreases upto,
{
    if upto > 0 {
        lemma_level_ids(inv, dim, upto - 1);
        let before = level_ids(inv, dim, upto - 1);
        let out = level_ids(inv, dim, upto);
        let id = inv.pieces[upto - 1].1;
        assert forall|m: int| 0 <= m < out.len() implies {
            let g = #[trigger] out[m];
            &&& g != SINGLE
            &&& order_of(inv.pats, g) == dim - 1
            &&& names_id(inv.pieces, g)
        } by {
            if m < before.len() {
                assert(out[m] == before[m]);
            } else {
                assert(inv.pieces[upto - 1].1 == out[m]);
            }
        }
        assert forall|a: int, b: int| 0 <= a < out.len() && 0 <= b < out.len() && a != b implies out[a]
            != out[b] by {
            if a < before.len() && b < before.len() {
                assert(out[a] == before[a] && out[b] == before[b]);
            } else if a < before.len() {
                assert(out[a] == before[a]);
            } else if b < before.len() {
                assert(out[b] == before[b]);
            }
        }
    }
}

/// Some piece names the shape.
pub open spec fn names_id(pieces: Seq<(MetaPatternPiece, i32)>, id: i32) -> bool {
    exists|k: int| 0 <= k < pieces.len() && (#[trigger] pieces[k]).1 == id
}

/// The first id that is free is no less than zero and greater than every
/// id on record.
pub proof fn lemma_free_id(pats: Seq<(i32, MetaPattern)>, upto: int)
    requires
        0 <= upto <= pats.len(),
    ensures
        0 <= free_id(pats, upto) <= 0x8000_0000,
        forall|k: int| 0 <= k < upto ==> (#[trigger] pats[k]).0 < free_id(pats, upto),
    decreases upto,
{
    if upto > 0 {
        lemma_free_id(pats, upto - 1);
    }
}

/// What the first groups of a level emit is sound.
pub proof fn lemma_level_emits(
    inv: Inventory,
    dim: int,
    cutoff: int,
    min_stride: int,
    max_stride: int,
    upto: int,
)
    requires
        aug_ok(inv),
        cutoff >= 2,
        level_fits(inv, dim, cutoff, min_stride, max_stride),
        0 <= upto <= level_ids(inv, dim, inv.pieces.len() as int).len(),
    ensures
        emitted_ok(
            inv,
            dim,
            free_id(inv.pats, inv.pats.len() as int),
            level_ids(inv, dim, inv.pieces.len() as int).take(upto),
            fold_groups(
                inv,
                level_ids(inv, dim, inv.pieces.len() as int),
                upto,
                cutoff,
                free_id(inv.pats, inv.pats.len() as int),
                min_stride,
                max_stride,
            ),
        ),
    decreases upto,
{
    let ids = level_ids(inv, dim, inv.pieces.len() as int);
    let start = free_id(inv.pats, inv.pats.len() as int);
    lemma_free_id(inv.pats, inv.pats.len() as int);
    lemma_level_ids(inv, dim, inv.pieces.len() as int);
    let out = fold_groups(inv, ids, upto, cutoff, start, min_stride, max_stride);
    if upto == 0 {
        reveal(emitted_ok);
    } else {
        lemma_level_emits(inv, dim, cutoff, min_stride, max_stride, upto - 1);
        let before = fold_groups(inv, ids, upto - 1, cutoff, start, min_stride, max_stride);
        let g = ids[upto - 1];
        let origins = group_origins(inv.pieces, g, inv.pieces.len() as int);
        let from = (start + before.shapes.len()) as i32;
        assert(names_id(inv.pieces, g));
        let k = choose|k: int| 0 <= k < inv.pieces.len() && (#[trigger] inv.pieces[k]).1 == g;
        assert(has_key(inv.pats, inv.pieces[k].1));
        assert(fits_at(inv, ids, upto - 1, cutoff, start, min_stride, max_stride));
        let f = group_fold(origins, cutoff, from, g, min_stride, max_stride);
        assert(start + before.shapes.len() <= 0x8000_0000) by {
            reveal(emitted_ok);
        }
        if origins.len() >= cutoff {
            lemma_group_emits(inv, g, dim, from, cutoff, min_stride, max_stride);
        } else {
            assert(f.shapes =~= Seq::<(i32, MetaPattern)>::empty());
            assert(f.pieces =~= Seq::<(MetaPatternPiece, i32)>::empty());
            assert(emitted_ok(
                inv,
                dim,
                start + before.shapes.len(),
                seq![g],
                Emitted { shapes: f.shapes, pieces: f.pieces },
            )) by {
                reveal(emitted_ok);
            }
        }
        let subs = ids.take(upto - 1);
        assert(!subs.contains(g)) by {
            if subs.contains(g) {
                let w = choose|w: int| 0 <= w < subs.len() && subs[w] == g;
                assert(ids[w] == ids[upto - 1]);
            }
        }
        lemma_emitted_join(
            inv,
            dim,
            start,
            subs,
            before,
            g,
            Emitted { shapes: f.shapes, pieces: f.pieces },
        );
        assert(ids.take(upto) =~= subs.push(g));
        assert(out == (Emitted {
            shapes: before.shapes + f.shapes,
            pieces: before.pieces + f.pieces,
        }));
    }
}

/// Setting the order of a shape moves no entry and changes no other shape.
pub proof fn lemma_with_order(pats: Seq<(i32, MetaPattern)>, id: i32, order: i32)
    requires
        distinct_keys(pats),
    ensures
        distinct_keys(with_order(pats, id, order)),
        forall|other: i32|
            lookup(with_order(pats, id, order), other) == match lookup(pats, other) {
                None => None::<MetaPattern>,
                Some(shape) => if other == id {
                    Some((shape.0, order, shape.2))
                } else {
                    Some(shape)
                },
            },
{
    let out = with_order(pats, id, order);
    assert forall|a: int, b: int| 0 <= a < b < out.len() implies (#[trigger] out[a]).0
        != (#[trigger] out[b]).0 by {
        assert(pats[a].0 != pats[b].0);
    }
    assert forall|other: i32|
        lookup(out, other) == match lookup(pats, other) {
            None => None::<MetaPattern>,
            Some(shape) => if other == id {
                Some((shape.0, order, shape.2))
            } else {
                Some(shape)
            },
        } by {
        if has_key(pats, other) {
            let k = choose|k: int| 0 <= k < pats.len() && (#[trigger] pats[k]).0 == other;
            lemma_lookup_at(pats, k);
            assert(out[k].0 == other);
            lemma_lookup_at(out, k);
        } else {
            if has_key(out, other) {
                let k = choose|k: int| 0 <= k < out.len() && (#[trigger] out[k]).0 == other;
                assert(pats[k].0 == other);
            }
        }
    }
}

/// The pieces between two ids are the pieces of the list with an id
/// between them.
pub proof fn lemma_pieces_between(pieces: Seq<(MetaPatternPiece, i32)>, lo: int, hi: int, upto: int)
    requires
        0 <= upto <= pieces.len(),
    ensures
        forall|e: (MetaPatternPiece, i32)|
            pieces_between(pieces, lo, hi, upto).contains(e) <==> (lo <= e.1 < hi
                && pieces.take(upto).contains(e)),
    decreases upto,
{
    let out = pieces_between(pieces, lo, hi, upto);
    let some = pieces.take(upto);
    if upto > 0 {
        lemma_pieces_between(pieces, lo, hi, upto - 1);
        let prev = pieces_between(pieces, lo, hi, upto - 1);
        let fewer = pieces.take(upto - 1);
        let last = pieces[upto - 1];
        assert forall|e: (MetaPatternPiece, i32)|
            out.contains(e) <==> (lo <= e.1 < hi && some.contains(e)) by {
            if out.contains(e) {
                let j = choose|j: int| 0 <= j < out.len() && out[j] == e;
                if j < prev.len() {
                    assert(prev[j] == e);
                    assert(prev.contains(e));
                    assert(fewer.contains(e));
                    let k = choose|k: int| 0 <= k < fewer.len() && fewer[k] == e;
                    assert(some[k] == e);
                } else {
                    assert(some[upto - 1] == e);
                }
            }
            if lo <= e.1 < hi && some.contains(e) {
                let k = choose|k: int| 0 <= k < some.len() && some[k] == e;
                if k < upto - 1 {
                    assert(fewer[k] == e);
                    assert(fewer.contains(e));
                    assert(prev.contains(e));
                    let j = choose|j: int| 0 <= j < prev.len() && prev[j] == e;
                    assert(out[j] == e);
                } else {
                    assert(out[out.len() - 1] == e);
                }
            }
        }
    } else {
        assert(some.len() == 0);
    }
}

/// One of the first `upto` pieces of the list has the id.
pub open spec fn id_among(fresh: Seq<(MetaPatternPiece, i32)>, id: i32, upto: int) -> bool {
    exists|u: int| 0 <= u < upto && (#[trigger] fresh[u]).1 == id
}

/// The triple on record for a shape, the empty triple where there is none.
pub open spec fn triple_in(pats: Seq<(i32, MetaPattern)>, id: i32) -> Pattern {
    match lookup(pats, id) {
        Some(shape) => shape.0,
        None => (0i32, 0i32, 0i32),
    }
}

/// The position is a step behind the origin of one of the first `upto`
/// pieces of the list.
pub open spec fn dissolved(
    pats: Seq<(i32, MetaPattern)>,
    fresh: Seq<(MetaPatternPiece, i32)>,
    upto: int,
    key: MetaPatternPiece,
) -> bool {
    exists|u: int|
        0 <= u < upto && on_steps(
            (#[trigger] fresh[u]).0,
            triple_in(pats, fresh[u].1),
            triple_in(pats, fresh[u].1).0 as int,
            key,
        )
}

/// What settling the first new pieces leaves: the shapes that they name
/// have the new order, the pieces on the steps behind their origins are
/// gone, and nothing else has changed.
pub proof fn lemma_settled(merged: Inventory, fresh: Seq<(MetaPatternPiece, i32)>, dim: int, upto: int)
    requires
        distinct_keys(merged.pats),
        distinct_keys(merged.pieces),
        0 <= upto <= fresh.len(),
    ensures
        distinct_keys(settled(merged, fresh, dim, upto).pats),
        distinct_keys(settled(merged, fresh, dim, upto).pieces),
        forall|id: i32|
            lookup(settled(merged, fresh, dim, upto).pats, id) == match lookup(merged.pats, id) {
                None => None::<MetaPattern>,
                Some(shape) => if id_among(fresh, id, upto) {
                    Some((shape.0, dim as i32, shape.2))
                } else {
                    Some(shape)
                },
            },
        forall|key: MetaPatternPiece|
            lookup(settled(merged, fresh, dim, upto).pieces, key) == if dissolved(
                merged.pats,
                fresh,
                upto,
                key,
            ) {
                None::<i32>
            } else {
                lookup(merged.pieces, key)
            },
    decreases upto,
{
    let out = settled(merged, fresh, dim, upto);
    if upto == 0 {
        assert forall|id: i32| !id_among(fresh, id, 0) by {}
        assert forall|key: MetaPatternPiece| !dissolved(merged.pats, fresh, 0, key) by {}
    } else {
        lemma_settled(merged, fresh, dim, upto - 1);
        let before = settled(merged, fresh, dim, upto - 1);
        let (origin, id) = fresh[upto - 1];
        assert forall|other: i32| id_among(fresh, other, upto) <==> (id_among(
            fresh,
            other,
            upto - 1,
        ) || other == id) by {
            if id_among(fresh, other, upto - 1) {
                let u = choose|u: int| 0 <= u < upto - 1 && (#[trigger] fresh[u]).1 == other;
                assert(0 <= u < upto && fresh[u].1 == other);
            }
            if other == id {
                assert(fresh[upto - 1].1 == other);
            }
            if id_among(fresh, other, upto) {
                let u = choose|u: int| 0 <= u < upto && (#[trigger] fresh[u]).1 == other;
                if u < upto - 1 {
                    assert(id_among(fresh, other, upto - 1));
                }
            }
        }
        match lookup(before.pats, id) {
            None => {
                assert(lookup(merged.pats, id) is None);
                assert(triple_in(merged.pats, id) == (0i32, 0i32, 0i32));
                assert forall|key: MetaPatternPiece| dissolved(merged.pats, fresh, upto, key)
                    <==> dissolved(merged.pats, fresh, upto - 1, key) by {
                    if dissolved(merged.pats, fresh, upto, key) {
                        let u = choose|u: int|
                            0 <= u < upto && on_steps(
                                (#[trigger] fresh[u]).0,
                                triple_in(merged.pats, fresh[u].1),
                                triple_in(merged.pats, fresh[u].1).0 as int,
                                key,
                            );
                        if u == upto - 1 {
                            assert(!on_steps(origin, (0i32, 0i32, 0i32), 0, key));
                        }
                    }
                    if dissolved(merged.pats, fresh, upto - 1, key) {
                        let u = choose|u: int|
                            0 <= u < upto - 1 && on_steps(
                                (#[trigger] fresh[u]).0,
                                triple_in(merged.pats, fresh[u].1),
                                triple_in(merged.pats, fresh[u].1).0 as int,
                                key,
                            );
                        assert(0 <= u < upto && on_steps(
                            fresh[u].0,
                            triple_in(merged.pats, fresh[u].1),
                            triple_in(merged.pats, fresh[u].1).0 as int,
                            key,
                        ));
                    }
                }
            },
            Some(shape) => {
                lemma_with_order(before.pats, id, dim as i32);
                lemma_line_dissolved(before.pieces, origin, shape.0, shape.0.0 as int);
                assert(shape.0 == triple_in(merged.pats, id));
                assert forall|key: MetaPatternPiece| dissolved(merged.pats, fresh, upto, key) <==> (
                dissolved(merged.pats, fresh, upto - 1, key) || on_steps(
                    origin,
                    shape.0,
                    shape.0.0 as int,
                    key,
                )) by {
                    if dissolved(merged.pats, fresh, upto, key) {
                        let u = choose|u: int|
                            0 <= u < upto && on_steps(
                                (#[trigger] fresh[u]).0,
                                triple_in(merged.pats, fresh[u].1),
                                triple_in(merged.pats, fresh[u].1).0 as int,
                                key,
                            );
                        if u < upto - 1 {
                            assert(dissolved(merged.pats, fresh, upto - 1, key));
                        }
                    }
                    if dissolved(merged.pats, fresh, upto - 1, key) {
                        let u = choose|u: int|
                            0 <= u < upto - 1 && on_steps(
                                (#[trigger] fresh[u]).0,
                                triple_in(merged.pats, fresh[u].1),
                                triple_in(merged.pats, fresh[u].1).0 as int,
                                key,
                            );
                        assert(0 <= u < upto && on_steps(
                            fresh[u].0,
                            triple_in(merged.pats, fresh[u].1),
                            triple_in(merged.pats, fresh[u].1).0 as int,
                            key,
                        ));
                    }
                    if on_steps(origin, shape.0, shape.0.0 as int, key) {
                        assert(on_steps(
                            fresh[upto - 1].0,
                            triple_in(merged.pats, fresh[upto - 1].1),
                            triple_in(merged.pats, fresh[upto - 1].1).0 as int,
                            key,
                        ));
                    }
                }
            },
        }
    }
}

/// The position is a step behind the origin of a new piece.
pub open spec fn stepped(out: Emitted, key: MetaPatternPiece) -> bool {
    exists|i: int|
        0 <= i < out.pieces.len() && on_steps(
            (#[trigger] out.pieces[i]).0,
            triple_of(out, i),
            triple_of(out, i).0 as int,
            key,
        )
}

/// The new pieces start at different positions.
pub proof fn lemma_new_origins(inv: Inventory, dim: int, start: int, subs: Seq<i32>, out: Emitted)
    requires
        emitted_ok(inv, dim, start, subs, out),
        0 <= start,
    ensures
        distinct_keys(out.pieces),
        distinct_keys(out.shapes),
        forall|i: int|
            0 <= i < out.pieces.len() ==> lookup(out.pieces, (#[trigger] out.pieces[i]).0) == Some(
                out.pieces[i].1,
            ) && triple_of(out, i).0 >= 2 && start <= out.pieces[i].1 < start + out.shapes.len(),
        forall|i: int| 0 <= i < out.pieces.len() ==> !stepped(out, (#[trigger] out.pieces[i]).0),
{
    assert forall|i: int| 0 <= i < out.pieces.len() implies triple_of(out, i).0 >= 2 && start
        <= (#[trigger] out.pieces[i]).1 < start + out.shapes.len() by {
        lemma_triple_of(inv, dim, start, subs, out, i);
    }
    reveal(emitted_ok);
    lemma_numbered(out.shapes, start);
    assert forall|a: int, b: int| 0 <= a < b < out.pieces.len() implies (#[trigger] out.pieces[a]).0
        != (#[trigger] out.pieces[b]).0 by {
        assert(out.pieces[a].1 == out.pieces[a].1);
        assert(triple_of(out, a).0 >= 2 && triple_of(out, b).0 >= 2);
        assert(step_of(out.pieces[a].0, triple_of(out, a), 0) != step_of(
            out.pieces[b].0,
            triple_of(out, b),
            0,
        ));
    }
    assert forall|i: int| 0 <= i < out.pieces.len() implies lookup(
        out.pieces,
        (#[trigger] out.pieces[i]).0,
    ) == Some(out.pieces[i].1) by {
        lemma_lookup_at(out.pieces, i);
    }
    assert forall|i: int| 0 <= i < out.pieces.len() implies !stepped(
        out,
        (#[trigger] out.pieces[i]).0,
    ) by {
        let key = out.pieces[i].0;
        if stepped(out, key) {
            let m = choose|m: int|
                0 <= m < out.pieces.len() && on_steps(
                    (#[trigger] out.pieces[m]).0,
                    triple_of(out, m),
                    triple_of(out, m).0 as int,
                    key,
                );
            let t = triple_of(out, m);
            let k = choose|k: int|
                1 <= k < t.0 && #[trigger] step_of(out.pieces[m].0, t, k) == (
                    key.0 as int,
                    key.1 as int,
                );
            assert(triple_of(out, i).0 >= 2);
            assert(step_of(out.pieces[i].0, triple_of(out, i), 0) == (key.0 as int, key.1 as int));
            if m != i {
                assert(step_of(out.pieces[m].0, t, k) != step_of(
                    out.pieces[i].0,
                    triple_of(out, i),
                    0,
                ));
            } else {
                // a line that moves does not come back to its origin
                lemma_triple_of(inv, dim, start, subs, out, i);
                assert(t.1 != 0 || t.2 != 0);
                if t.1 != 0 {
                    assert(k * t.1 != 0) by (nonlinear_arith)
                        requires
                            k >= 1,
                            t.1 != 0,
                    ;
                } else {
                    assert(k * t.2 != 0) by (nonlinear_arith)
                        requires
                            k >= 1,
                            t.2 != 0,
                    ;
                }
            }
        }
    }
}

/// What the groups of a whole level emit.
pub open spec fn level_out(inv: Inventory, dim: int, cutoff: int, min_stride: int, max_stride: int) -> Emitted {
    let ids = level_ids(inv, dim, inv.pieces.len() as int);
    fold_groups(
        inv,
        ids,
        ids.len() as int,
        cutoff,
        free_id(inv.pats, inv.pats.len() as int),
        min_stride,
        max_stride,
    )
}

/// The ids that the pieces of a consistent inventory name are below the
/// first free id.
pub proof fn lemma_ids_below(inv: Inventory)
    requires
        aug_ok(inv),
    ensures
        forall|id: i32| has_key(inv.pats, id) ==> id < free_id(inv.pats, inv.pats.len() as int),
        forall|key: MetaPatternPiece, id: i32|
            lookup(inv.pieces, key) == Some(id) ==> has_key(inv.pats, id),
{
    lemma_free_id(inv.pats, inv.pats.len() as int);
    assert forall|id: i32| has_key(inv.pats, id) implies id < free_id(
        inv.pats,
        inv.pats.len() as int,
    ) by {
        let k = choose|k: int| 0 <= k < inv.pats.len() && (#[trigger] inv.pats[k]).0 == id;
    }
    assert forall|key: MetaPatternPiece, id: i32|
        lookup(inv.pieces, key) == Some(id) implies has_key(inv.pats, id) by {
        let k = choose|k: int| 0 <= k < inv.pieces.len() && (#[trigger] inv.pieces[k]).0 == key;
        lemma_lookup_at(inv.pieces, k);
        assert(has_key(inv.pats, inv.pieces[k].1));
    }
}

/// The inventory after a level, shape by shape and position by position:
/// the new shapes are on record with the order of the level, the old
/// shapes as they were; a position behind the origin of a new piece holds
/// nothing, the origin of a new piece holds the new piece, and every other
/// position what it held.
#[verifier::rlimit(50)]
pub proof fn lemma_level_shape(inv: Inventory, dim: int, cutoff: int, min_stride: int, max_stride: int)
    requires
        aug_ok(inv),
        cutoff >= 2,
        level_fits(inv, dim, cutoff, min_stride, max_stride),
    ensures
        ({
            let out = level_out(inv, dim, cutoff, min_stride, max_stride);
            let start = free_id(inv.pats, inv.pats.len() as int);
            let end = level_up(inv, dim, cutoff, min_stride, max_stride);
            &&& distinct_keys(end.pats)
            &&& distinct_keys(end.pieces)
            &&& forall|j: int|
                0 <= j < out.shapes.len() ==> lookup(end.pats, (#[trigger] out.shapes[j]).0) == Some(
                    (out.shapes[j].1.0, dim as i32, out.shapes[j].1.2),
                )
            &&& forall|id: i32| has_key(inv.pats, id) ==> lookup(end.pats, id) == lookup(inv.pats, id)
            &&& forall|id: i32|
                has_key(end.pats, id) <==> (has_key(inv.pats, id) || start <= id < start
                    + out.shapes.len())
            &&& forall|key: MetaPatternPiece|
                lookup(end.pieces, key) == if stepped(out, key) {
                    None::<i32>
                } else if has_key(out.pieces, key) {
                    lookup(out.pieces, key)
                } else {
                    lookup(inv.pieces, key)
                }
        }),
{
    let ids = level_ids(inv, dim, inv.pieces.len() as int);
    let out = level_out(inv, dim, cutoff, min_stride, max_stride);
    let start = free_id(inv.pats, inv.pats.len() as int);
    let end = level_up(inv, dim, cutoff, min_stride, max_stride);
    let ns = out.shapes.len() as int;
    lemma_free_id(inv.pats, inv.pats.len() as int);
    lemma_ids_below(inv);
    lemma_level_emits(inv, dim, cutoff, min_stride, max_stride, ids.len() as int);
    let subs = ids.take(ids.len() as int);
    lemma_new_origins(inv, dim, start, subs, out);
    reveal(emitted_ok);
    lemma_numbered(out.shapes, start);
    let merged = Inventory {
        pats: put_all(inv.pats, out.shapes, ns),
        pieces: put_all(inv.pieces, out.pieces, out.pieces.len() as int),
    };
    lemma_put_all(inv.pats, out.shapes, ns);
    lemma_put_all(inv.pieces, out.pieces, out.pieces.len() as int);
    let fresh = pieces_between(merged.pieces, start, start + ns, merged.pieces.len() as int);
    lemma_pieces_between(merged.pieces, start, start + ns, merged.pieces.len() as int);
    assert(merged.pieces.take(merged.pieces.len() as int) == merged.pieces);
    lemma_settled(merged, fresh, dim, fresh.len() as int);
    assert(end == settled(merged, fresh, dim, fresh.len() as int));
    // the fresh pieces are the pieces that the groups emitted
    assert forall|e: (MetaPatternPiece, i32)| fresh.contains(e) <==> out.pieces.contains(e) by {
        lemma_lookup_entry(merged.pieces, e.0, e.1);
        lemma_lookup_entry(out.pieces, e.0, e.1);
        if out.pieces.contains(e) {
            let i = choose|i: int| 0 <= i < out.pieces.len() && out.pieces[i] == e;
            assert(lookup(merged.pieces, out.pieces[i].0) == Some(out.pieces[i].1));
            assert(start <= out.pieces[i].1 < start + ns);
        }
        if fresh.contains(e) {
            assert(merged.pieces.contains(e));
            assert(lookup(merged.pieces, e.0) == Some(e.1));
            if !key_among(out.pieces, e.0, out.pieces.len() as int) {
                assert(lookup(inv.pieces, e.0) == Some(e.1));
                assert(has_key(inv.pats, e.1));
            } else {
                let i = choose|i: int|
                    0 <= i < out.pieces.len() && (#[trigger] out.pieces[i]).0 == e.0;
                assert(lookup(merged.pieces, out.pieces[i].0) == Some(out.pieces[i].1));
                assert(out.pieces[i] == e);
            }
        }
    }
    // a fresh piece finds the triple of its shape among the merged shapes
    assert forall|i: int| 0 <= i < out.pieces.len() implies triple_in(
        merged.pats,
        (#[trigger] out.pieces[i]).1,
    ) == triple_of(out, i) by {
        lemma_triple_of(inv, dim, start, subs, out, i);
        let j = out.pieces[i].1 - start;
        assert(lookup(merged.pats, out.shapes[j].0) == Some(out.shapes[j].1));
    }
    assert forall|key: MetaPatternPiece| dissolved(merged.pats, fresh, fresh.len() as int, key)
        <==> stepped(out, key) by {
        if dissolved(merged.pats, fresh, fresh.len() as int, key) {
            let u = choose|u: int|
                0 <= u < fresh.len() && on_steps(
                    (#[trigger] fresh[u]).0,
                    triple_in(merged.pats, fresh[u].1),
                    triple_in(merged.pats, fresh[u].1).0 as int,
                    key,
                );
            assert(fresh.contains(fresh[u]));
            assert(out.pieces.contains(fresh[u]));
            let i = choose|i: int| 0 <= i < out.pieces.len() && out.pieces[i] == fresh[u];
            assert(triple_in(merged.pats, out.pieces[i].1) == triple_of(out, i));
            assert(on_steps(out.pieces[i].0, triple_of(out, i), triple_of(out, i).0 as int, key));
        }
        if stepped(out, key) {
            let i = choose|i: int|
                0 <= i < out.pieces.len() && on_steps(
                    (#[trigger] out.pieces[i]).0,
                    triple_of(out, i),
                    triple_of(out, i).0 as int,
                    key,
                );
            assert(out.pieces.contains(out.pieces[i]));
            assert(fresh.contains(out.pieces[i]));
            let u = choose|u: int| 0 <= u < fresh.len() && fresh[u] == out.pieces[i];
            assert(triple_in(merged.pats, out.pieces[i].1) == triple_of(out, i));
            assert(on_steps(
                fresh[u].0,
                triple_in(merged.pats, fresh[u].1),
                triple_in(merged.pats, fresh[u].1).0 as int,
                key,
            ));
        }
    }
    // the shapes
    assert forall|j: int| 0 <= j < ns implies lookup(end.pats, (#[trigger] out.shapes[j]).0) == Some(
        (out.shapes[j].1.0, dim as i32, out.shapes[j].1.2),
    ) by {
        let id = out.shapes[j].0;
        assert(lookup(merged.pats, id) == Some(out.shapes[j].1));
        assert(shape_used(out, j)) by {
            reveal(emitted_ok);
        }
        let i = choose|i: int| 0 <= i < out.pieces.len() && (#[trigger] out.pieces[i]).1 == id;
        assert(out.pieces.contains(out.pieces[i]));
        assert(fresh.contains(out.pieces[i]));
        let u = choose|u: int| 0 <= u < fresh.len() && fresh[u] == out.pieces[i];
        assert(fresh[u].1 == id);
        assert(id_among(fresh, id, fresh.len() as int));
    }
    assert forall|id: i32| has_key(inv.pats, id) implies lookup(end.pats, id) == lookup(
        inv.pats,
        id,
    ) by {
        assert(id < start);
        assert(!key_among(out.shapes, id, ns)) by {
            if key_among(out.shapes, id, ns) {
                let j = choose|j: int| 0 <= j < ns && (#[trigger] out.shapes[j]).0 == id;
            }
        }
        assert(lookup(merged.pats, id) == lookup(inv.pats, id));
        assert(!id_among(fresh, id, fresh.len() as int)) by {
            if id_among(fresh, id, fresh.len() as int) {
                let u = choose|u: int| 0 <= u < fresh.len() && (#[trigger] fresh[u]).1 == id;
                assert(fresh.contains(fresh[u]));
            }
        }
    }
    assert forall|id: i32|
        has_key(end.pats, id) <==> (has_key(inv.pats, id) || start <= id < start + ns) by {
        assert(has_key(merged.pats, id) <==> (has_key(inv.pats, id) || key_among(
            out.shapes,
            id,
            ns,
        )));
        if key_among(out.shapes, id, ns) {
            let j = choose|j: int| 0 <= j < ns && (#[trigger] out.shapes[j]).0 == id;
        }
        if start <= id < start + ns {
            assert(out.shapes[id - start].0 == id);
        }
        lemma_has_key(end.pats, id);
        lemma_has_key(merged.pats, id);
    }
    assert forall|key: MetaPatternPiece|
        lookup(end.pieces, key) == if stepped(out, key) {
            None::<i32>
        } else if has_key(out.pieces, key) {
            lookup(out.pieces, key)
        } else {
            lookup(inv.pieces, key)
        } by {
        if has_key(out.pieces, key) {
            let i = choose|i: int| 0 <= i < out.pieces.len() && (#[trigger] out.pieces[i]).0 == key;
            assert(lookup(merged.pieces, out.pieces[i].0) == Some(out.pieces[i].1));
        } else {
            assert(!key_among(out.pieces, key, out.pieces.len() as int)) by {
                if key_among(out.pieces, key, out.pieces.len() as int) {
                    let i = choose|i: int|
                        0 <= i < out.pieces.len() && (#[trigger] out.pieces[i]).0 == key;
                }
            }
        }
    }
}

/// A key is held exactly where a lookup finds a value.
pub proof fn lemma_has_key<K, V>(s: Seq<(K, V)>, key: K)
    ensures
        has_key(s, key) <==> lookup(s, key) is Some,
{
}

/// Two lists of shapes that hold the same record for every id of the
/// first give a shape that is nested in the first the same axes.
pub proof fn lemma_same_chain(a: Seq<(i32, MetaPattern)>, b: Seq<(i32, MetaPattern)>, id: i32, depth: int)
    requires
        nested_ok(a, id, depth),
        forall|x: i32| has_key(a, x) ==> lookup(b, x) == lookup(a, x),
    ensures
        nested_ok(b, id, depth),
        axes(b, id, depth) == axes(a, id, depth),
        order_of(b, id) == depth,
        order_of(a, id) == depth,
    decreases depth,
{
    lemma_has_key(a, id);
    let shape = lookup(a, id).unwrap();
    if depth >= 2 {
        lemma_same_chain(a, b, sub_id(shape), depth - 1);
    } else {
        assert(axes(a, sub_id(shape), depth - 1) == axes(b, sub_id(shape), depth - 1));
    }
}

/// Every recorded shape of a consistent list is nested as deep as its
/// order says.
pub proof fn lemma_nested(pats: Seq<(i32, MetaPattern)>, id: i32)
    requires
        shapes_ok(pats),
        has_key(pats, id),
    ensures
        nested_ok(pats, id, order_of(pats, id)),
{
    let k = choose|k: int| 0 <= k < pats.len() && (#[trigger] pats[k]).0 == id;
    lemma_lookup_at(pats, k);
}

/// The cell lies in the inner shape placed at one of the first `upto`
/// repetitions of the outermost axis.
pub open spec fn on_repetition(ax: Seq<Pattern>, row: int, col: int, upto: int, c: (int, int)) -> bool {
    exists|k: int| 0 <= k < upto && #[trigger] in_repetition(ax, row, col, k, c)
}

/// The cell lies in the inner shape placed at the `k`-th repetition of the
/// outermost axis.
pub open spec fn in_repetition(ax: Seq<Pattern>, row: int, col: int, k: int, c: (int, int)) -> bool {
    shape_cells(ax.skip(1), row + k * ax[0].1, col + k * ax[0].2).contains(c)
}

/// The cells of the first repetitions are the cells of the inner shape at
/// each of them.
pub proof fn lemma_axis_cells(ax: Seq<Pattern>, row: int, col: int, upto: int, c: (int, int))
    requires
        ax.len() > 0,
    ensures
        axis_cells(ax, row, col, upto).contains(c) <==> on_repetition(ax, row, col, upto, c),
    decreases upto,
{
    if upto <= 0 {
        assert(axis_cells(ax, row, col, upto) =~= Seq::<(int, int)>::empty());
    } else {
        lemma_axis_cells(ax, row, col, upto - 1, c);
        let head = axis_cells(ax, row, col, upto - 1);
        let last = shape_cells(ax.skip(1), row + (upto - 1) * ax[0].1, col + (upto - 1) * ax[0].2);
        assert(axis_cells(ax, row, col, upto) == head + last);
        if (head + last).contains(c) {
            let n = choose|n: int| 0 <= n < (head + last).len() && (head + last)[n] == c;
            if n < head.len() {
                assert(head[n] == c);
                assert(head.contains(c));
                let k = choose|k: int| 0 <= k < upto - 1 && #[trigger] in_repetition(ax, row, col, k, c);
                assert(in_repetition(ax, row, col, k, c));
            } else {
                assert(last[n - head.len()] == c);
                assert(in_repetition(ax, row, col, upto - 1, c));
            }
        }
        if on_repetition(ax, row, col, upto, c) {
            let k = choose|k: int| 0 <= k < upto && #[trigger] in_repetition(ax, row, col, k, c);
            if k < upto - 1 {
                assert(on_repetition(ax, row, col, upto - 1, c));
                let n = choose|n: int| 0 <= n < head.len() && head[n] == c;
                assert((head + last)[n] == c);
            } else {
                let n = choose|n: int| 0 <= n < last.len() && last[n] == c;
                assert((head + last)[head.len() + n] == c);
            }
        }
    }
}

/// The piece at the position holds the cell.
pub open spec fn reaches(inv: Inventory, key: MetaPatternPiece, c: (int, int)) -> bool {
    match lookup(inv.pieces, key) {
        Some(id) => piece_cells(inv.pats, key, id).contains(c),
        None => false,
    }
}

/// The cell is reached by expanding a piece of the inventory.
pub open spec fn covered(inv: Inventory, c: (int, int)) -> bool {
    exists|key: MetaPatternPiece| #[trigger] reaches(inv, key, c)
}

/// The cells of a new piece are the cells of the pieces that it absorbed:
/// a cell lies in the new piece exactly where it lies in the piece that
/// the inventory held at one of its steps.
pub proof fn lemma_new_piece(
    inv: Inventory,
    end: Inventory,
    origin: MetaPatternPiece,
    id: i32,
    t: Pattern,
    g: i32,
    dim: int,
    c: (int, int),
)
    requires
        aug_ok(inv),
        2 <= dim <= 0x7FFF,
        absorbs(inv, origin, t, g),
        has_key(inv.pats, g),
        order_of(inv.pats, g) == dim - 1,
        lookup(end.pats, id) == Some((t, dim as i32, Some(g))),
        forall|x: i32| has_key(inv.pats, x) ==> lookup(end.pats, x) == lookup(inv.pats, x),
    ensures
        nested_ok(end.pats, id, dim),
        piece_cells(end.pats, origin, id).contains(c) <==> exists|k: int|
            0 <= k < t.0 && shape_cells(
                axes(inv.pats, g, dim - 1),
                (#[trigger] step_of(origin, t, k)).0,
                step_of(origin, t, k).1,
            ).contains(c),
{
    lemma_nested(inv.pats, g);
    lemma_same_chain(inv.pats, end.pats, g, dim - 1);
    let inner = axes(inv.pats, g, dim - 1);
    let ax = axes(end.pats, id, dim);
    assert(sub_id((t, dim as i32, Some(g))) == g);
    assert(ax == seq![t] + inner);
    assert(ax.skip(1) =~= inner);
    assert(ax[0] == t);
    assert(order_of(end.pats, id) == dim);
    let row = origin.0 as int;
    let col = origin.1 as int;
    assert(piece_cells(end.pats, origin, id) == axis_cells(ax, row, col, t.0 as int));
    lemma_axis_cells(ax, row, col, t.0 as int, c);
    if on_repetition(ax, row, col, t.0 as int, c) {
        let k = choose|k: int| 0 <= k < t.0 && #[trigger] in_repetition(ax, row, col, k, c);
        assert(shape_cells(inner, step_of(origin, t, k).0, step_of(origin, t, k).1).contains(c));
    }
    if exists|k: int|
        0 <= k < t.0 && shape_cells(
            inner,
            (#[trigger] step_of(origin, t, k)).0,
            step_of(origin, t, k).1,
        ).contains(c) {
        let k = choose|k: int|
            0 <= k < t.0 && shape_cells(
                inner,
                (#[trigger] step_of(origin, t, k)).0,
                step_of(origin, t, k).1,
            ).contains(c);
        assert(in_repetition(ax, row, col, k, c));
    }
}

/// The position as a key of the pieces.
pub open spec fn key_of(pos: (int, int)) -> MetaPatternPiece {
    (pos.0 as usize, pos.1 as usize)
}

/// One level keeps the inventory consistent: every shape is nested as
/// deep as its order says, and every piece names a shape on record.
pub proof fn lemma_level_consistent(inv: Inventory, dim: int, cutoff: int, min_stride: int, max_stride: int)
    requires
        aug_ok(inv),
        cutoff >= 2,
        2 <= dim <= 0x7FFF,
        level_fits(inv, dim, cutoff, min_stride, max_stride),
    ensures
        aug_ok(level_up(inv, dim, cutoff, min_stride, max_stride)),
{
    let out = level_out(inv, dim, cutoff, min_stride, max_stride);
    let start = free_id(inv.pats, inv.pats.len() as int);
    let end = level_up(inv, dim, cutoff, min_stride, max_stride);
    let ids = level_ids(inv, dim, inv.pieces.len() as int);
    let subs = ids.take(ids.len() as int);
    lemma_level_shape(inv, dim, cutoff, min_stride, max_stride);
    lemma_level_emits(inv, dim, cutoff, min_stride, max_stride, ids.len() as int);
    lemma_free_id(inv.pats, inv.pats.len() as int);
    lemma_ids_below(inv);
    lemma_new_origins(inv, dim, start, subs, out);
    assert forall|k: int| 0 <= k < end.pats.len() implies nested_ok(
        end.pats,
        (#[trigger] end.pats[k]).0,
        end.pats[k].1.1 as int,
    ) by {
        let id = end.pats[k].0;
        lemma_lookup_at(end.pats, k);
        assert(has_key(end.pats, id));
        if has_key(inv.pats, id) {
            lemma_nested(inv.pats, id);
            lemma_same_chain(inv.pats, end.pats, id, order_of(inv.pats, id));
        } else {
            lemma_new_shape(inv, dim, start, subs, out, end, id - start);
        }
    }
    assert forall|k: int| 0 <= k < end.pieces.len() implies has_key(
        end.pats,
        (#[trigger] end.pieces[k]).1,
    ) by {
        let key = end.pieces[k].0;
        lemma_lookup_at(end.pieces, k);
        if has_key(out.pieces, key) {
            let i = choose|i: int| 0 <= i < out.pieces.len() && (#[trigger] out.pieces[i]).0 == key;
        } else {
            assert(lookup(inv.pieces, key) == Some(end.pieces[k].1));
        }
    }
}

/// One level keeps the cells that the inventory stands for: a cell is
/// reached by expanding a piece of the raised inventory exactly where it
/// was reached by expanding a piece before.
pub proof fn lemma_level_cover(
    inv: Inventory,
    dim: int,
    cutoff: int,
    min_stride: int,
    max_stride: int,
    c: (int, int),
)
    requires
        aug_ok(inv),
        cutoff >= 2,
        2 <= dim <= 0x7FFF,
        level_fits(inv, dim, cutoff, min_stride, max_stride),
    ensures
        covered(level_up(inv, dim, cutoff, min_stride, max_stride), c) <==> covered(inv, c),
{
    let out = level_out(inv, dim, cutoff, min_stride, max_stride);
    let start = free_id(inv.pats, inv.pats.len() as int);
    let end = level_up(inv, dim, cutoff, min_stride, max_stride);
    let ids = level_ids(inv, dim, inv.pieces.len() as int);
    let subs = ids.take(ids.len() as int);
    lemma_level_shape(inv, dim, cutoff, min_stride, max_stride);
    lemma_level_emits(inv, dim, cutoff, min_stride, max_stride, ids.len() as int);
    lemma_free_id(inv.pats, inv.pats.len() as int);
    if covered(end, c) {
        let key = choose|key: MetaPatternPiece| #[trigger] reaches(end, key, c);
        lemma_kept_cell(inv, dim, start, subs, out, end, key, c);
    }
    if covered(inv, c) {
        let key = choose|key: MetaPatternPiece| #[trigger] reaches(inv, key, c);
        lemma_found_cell(inv, dim, start, subs, out, end, key, c);
    }
}

/// One level keeps the inventory consistent, and the cells that it stands
/// for: a cell is reached by expanding a piece of the raised inventory
/// exactly where it was reached by expanding a piece before.
pub proof fn lemma_level_keeps(inv: Inventory, dim: int, cutoff: int, min_stride: int, max_stride: int)
    requires
        aug_ok(inv),
        cutoff >= 2,
        2 <= dim <= 0x7FFF,
        level_fits(inv, dim, cutoff, min_stride, max_stride),
    ensures
        aug_ok(level_up(inv, dim, cutoff, min_stride, max_stride)),
        forall|c: (int, int)|
            covered(level_up(inv, dim, cutoff, min_stride, max_stride), c) <==> covered(inv, c),
{
    lemma_level_consistent(inv, dim, cutoff, min_stride, max_stride);
    assert forall|c: (int, int)|
        covered(level_up(inv, dim, cutoff, min_stride, max_stride), c) <==> covered(inv, c) by {
        lemma_level_cover(inv, dim, cutoff, min_stride, max_stride, c);
    }
}

/// The new shape `j` is nested `dim` deep in the raised inventory.
proof fn lemma_new_shape(
    inv: Inventory,
    dim: int,
    start: int,
    subs: Seq<i32>,
    out: Emitted,
    end: Inventory,
    j: int,
)
    requires
        aug_ok(inv),
        2 <= dim <= 0x7FFF,
        0 <= start,
        emitted_ok(inv, dim, start, subs, out),
        0 <= j < out.shapes.len(),
        lookup(end.pats, out.shapes[j].0) == Some((out.shapes[j].1.0, dim as i32, out.shapes[j].1.2)),
        forall|x: i32| has_key(inv.pats, x) ==> lookup(end.pats, x) == lookup(inv.pats, x),
    ensures
        out.shapes[j].0 == start + j,
        nested_ok(end.pats, out.shapes[j].0, dim),
{
    reveal(emitted_ok);
    assert(shape_used(out, j));
    let i = choose|i: int| 0 <= i < out.pieces.len() && (#[trigger] out.pieces[i]).1 == out.shapes[j].0;
    lemma_triple_of(inv, dim, start, subs, out, i);
    assert(out.pieces[i].1 - start == j);
    let g = sub_id(out.shapes[j].1);
    assert(out.shapes[j].1.2 == Some(g));
    lemma_new_piece(inv, end, out.pieces[i].0, out.shapes[j].0, out.shapes[j].1.0, g, dim, (0, 0));
}

/// A cell that the raised inventory reaches was reached before.
proof fn lemma_kept_cell(
    inv: Inventory,
    dim: int,
    start: int,
    subs: Seq<i32>,
    out: Emitted,
    end: Inventory,
    key: MetaPatternPiece,
    c: (int, int),
)
    requires
        aug_ok(inv),
        2 <= dim <= 0x7FFF,
        0 <= start,
        emitted_ok(inv, dim, start, subs, out),
        forall|j: int|
            0 <= j < out.shapes.len() ==> lookup(end.pats, (#[trigger] out.shapes[j]).0) == Some(
                (out.shapes[j].1.0, dim as i32, out.shapes[j].1.2),
            ),
        forall|x: i32| has_key(inv.pats, x) ==> lookup(end.pats, x) == lookup(inv.pats, x),
        lookup(end.pieces, key) == if stepped(out, key) {
            None::<i32>
        } else if has_key(out.pieces, key) {
            lookup(out.pieces, key)
        } else {
            lookup(inv.pieces, key)
        },
        reaches(end, key, c),
    ensures
        covered(inv, c),
{
    lemma_new_origins(inv, dim, start, subs, out);
    lemma_ids_below(inv);
    let id = lookup(end.pieces, key).unwrap();
    if has_key(out.pieces, key) {
        let i = choose|i: int| 0 <= i < out.pieces.len() && (#[trigger] out.pieces[i]).0 == key;
        lemma_triple_of(inv, dim, start, subs, out, i);
        let j = out.pieces[i].1 - start;
        let t = out.shapes[j].1.0;
        let g = sub_id(out.shapes[j].1);
        assert(out.shapes[j].1.2 == Some(g)) by {
            reveal(emitted_ok);
        }
        assert(has_key(inv.pats, g) && order_of(inv.pats, g) == dim - 1) by {
            reveal(emitted_ok);
        }
        lemma_new_piece(inv, end, key, id, t, g, dim, c);
        let k = choose|k: int|
            0 <= k < t.0 && shape_cells(
                axes(inv.pats, g, dim - 1),
                (#[trigger] step_of(key, t, k)).0,
                step_of(key, t, k).1,
            ).contains(c);
        let pos = step_of(key, t, k);
        assert(held_at(inv.pieces, pos, g));
        assert(reaches(inv, key_of(pos), c));
    } else {
        lemma_has_key(inv.pieces, key);
        lemma_nested(inv.pats, id);
        lemma_same_chain(inv.pats, end.pats, id, order_of(inv.pats, id));
        assert(reaches(inv, key, c));
    }
}

/// A cell that the inventory reached is reached by the raised inventory.
proof fn lemma_found_cell(
    inv: Inventory,
    dim: int,
    start: int,
    subs: Seq<i32>,
    out: Emitted,
    end: Inventory,
    key: MetaPatternPiece,
    c: (int, int),
)
    requires
        aug_ok(inv),
        2 <= dim <= 0x7FFF,
        0 <= start,
        emitted_ok(inv, dim, start, subs, out),
        forall|j: int|
            0 <= j < out.shapes.len() ==> lookup(end.pats, (#[trigger] out.shapes[j]).0) == Some(
                (out.shapes[j].1.0, dim as i32, out.shapes[j].1.2),
            ),
        forall|x: i32| has_key(inv.pats, x) ==> lookup(end.pats, x) == lookup(inv.pats, x),
        forall|other: MetaPatternPiece|
            lookup(end.pieces, other) == if stepped(out, other) {
                None::<i32>
            } else if has_key(out.pieces, other) {
                lookup(out.pieces, other)
            } else {
                lookup(inv.pieces, other)
            },
        reaches(inv, key, c),
    ensures
        covered(end, c),
{
    lemma_new_origins(inv, dim, start, subs, out);
    lemma_ids_below(inv);
    let id = lookup(inv.pieces, key).unwrap();
    if stepped(out, key) || has_key(out.pieces, key) {
        // the new piece that absorbed the piece at the position, and the step
        let i = if stepped(out, key) {
            choose|i: int|
                0 <= i < out.pieces.len() && on_steps(
                    (#[trigger] out.pieces[i]).0,
                    triple_of(out, i),
                    triple_of(out, i).0 as int,
                    key,
                )
        } else {
            choose|i: int| 0 <= i < out.pieces.len() && (#[trigger] out.pieces[i]).0 == key
        };
        lemma_triple_of(inv, dim, start, subs, out, i);
        let origin = out.pieces[i].0;
        let j = out.pieces[i].1 - start;
        let t = out.shapes[j].1.0;
        let g = sub_id(out.shapes[j].1);
        assert(t == triple_of(out, i));
        let k = if stepped(out, key) {
            choose|k: int|
                1 <= k < t.0 && #[trigger] step_of(origin, t, k) == (key.0 as int, key.1 as int)
        } else {
            0int
        };
        if !stepped(out, key) {
            assert(origin == key);
            assert(0 * t.1 == 0 && 0 * t.2 == 0);
            assert(step_of(origin, t, 0) == (key.0 as int, key.1 as int));
        } else {
            assert(on_steps(origin, t, t.0 as int, key));
        }
        assert(0 <= k < t.0);
        assert(step_of(origin, t, k) == (key.0 as int, key.1 as int));
        assert(held_at(inv.pieces, step_of(origin, t, k), g));
        assert(id == g);
        assert(out.shapes[j].1.2 == Some(g)) by {
            reveal(emitted_ok);
        }
        assert(has_key(inv.pats, g) && order_of(inv.pats, g) == dim - 1) by {
            reveal(emitted_ok);
        }
        lemma_new_piece(inv, end, origin, out.pieces[i].1, t, g, dim, c);
        assert(!stepped(out, origin));
        assert(has_key(out.pieces, origin));
        assert(lookup(end.pieces, origin) == Some(out.pieces[i].1));
        assert(reaches(end, origin, c));
    } else {
        lemma_has_key(inv.pieces, key);
        lemma_nested(inv.pats, id);
        lemma_same_chain(inv.pats, end.pats, id, order_of(inv.pats, id));
        assert(lookup(end.pieces, key) == Some(id));
        assert(reaches(end, key, c));
    }
}

/// Raising the order keeps the cover: after any number of levels the
/// inventory is consistent, and a cell is reached by expanding one of its
/// pieces exactly where it was reached before the first level.
pub proof fn lemma_raised_keeps(
    inv: Inventory,
    dim: int,
    target: int,
    cutoff: int,
    min_stride: int,
    max_stride: int,
)
    requires
        aug_ok(inv),
        cutoff >= 2,
        2 <= dim,
        target <= 0x7FFF,
    ensures
        aug_ok(raised(inv, dim, target, cutoff, min_stride, max_stride).0),
        forall|c: (int, int)|
            covered(raised(inv, dim, target, cutoff, min_stride, max_stride).0, c) <==> covered(
                inv,
                c,
            ),
    decreases target - dim + 1,
{
    if dim <= target && level_fits(inv, dim, cutoff, min_stride, max_stride) {
        let next = level_up(inv, dim, cutoff, min_stride, max_stride);
        lemma_level_keeps(inv, dim, cutoff, min_stride, max_stride);
        lemma_raised_keeps(next, dim + 1, target, cutoff, min_stride, max_stride);
    }
}

/// The records have at least one cell each.
pub open spec fn records_long(list: Seq<(OriginUwc, i32)>) -> bool {
    forall|k: int| 0 <= k < list.len() ==> (#[trigger] list[k]).0.2.1@[0] >= 0
}

/// The inventory of the first records of a list.
pub open spec fn listed_inventory(list: Seq<(OriginUwc, i32)>, upto: int) -> Inventory {
    Inventory { pats: listed_shapes(list, upto), pieces: listed_pieces(list, upto) }
}

/// The inventory of a list of one-axis records is consistent: every shape
/// has the order one, and every piece names a shape on record.
pub proof fn lemma_listed_consistent(list: Seq<(OriginUwc, i32)>, upto: int)
    requires
        records_valid(list),
        records_long(list),
        0 <= upto <= list.len(),
    ensures
        aug_ok(listed_inventory(list, upto)),
        forall|k: int|
            0 <= k < listed_shapes(list, upto).len() ==> (#[trigger] listed_shapes(list, upto)[k]).1.1
                == 1 && listed_shapes(list, upto)[k].1.0.0 >= 1,
    decreases upto,
{
    let shapes = listed_shapes(list, upto);
    let pieces = listed_pieces(list, upto);
    if upto > 0 {
        lemma_listed_consistent(list, upto - 1);
        let before = listed_shapes(list, upto - 1);
        let held = listed_pieces(list, upto - 1);
        let rec = list[upto - 1];
        let key = (rec.0.0, rec.0.1);
        lemma_put(held, key, rec.1);
        assert(has_key(shapes, rec.1)) by {
            if !has_key(before, rec.1) {
                assert(shapes[shapes.len() - 1].0 == rec.1);
            } else {
                let k = choose|k: int| 0 <= k < before.len() && (#[trigger] before[k]).0 == rec.1;
                assert(shapes[k].0 == rec.1);
            }
        }
        assert forall|id: i32| has_key(before, id) implies has_key(shapes, id) by {
            let k = choose|k: int| 0 <= k < before.len() && (#[trigger] before[k]).0 == id;
            assert(shapes[k].0 == id);
        }
        assert(distinct_keys(shapes)) by {
            if !has_key(before, rec.1) {
                assert forall|a: int, b: int| 0 <= a < b < shapes.len() implies (#[trigger] shapes[a]).0
                    != (#[trigger] shapes[b]).0 by {
                    if b == shapes.len() - 1 {
                        assert(before[a].0 != rec.1);
                    } else {
                        assert(before[a].0 != before[b].0);
                    }
                }
            }
        }
        assert forall|k: int| 0 <= k < pieces.len() implies has_key(shapes, (#[trigger] pieces[k]).1) by {
            lemma_lookup_at(pieces, k);
            if pieces[k].0 != key {
                lemma_has_key(held, pieces[k].0);
                let m = choose|m: int| 0 <= m < held.len() && (#[trigger] held[m]).0 == pieces[k].0;
                lemma_lookup_at(held, m);
                assert(has_key(before, held[m].1));
            }
        }
    }
    assert forall|k: int| 0 <= k < shapes.len() implies nested_ok(
        shapes,
        (#[trigger] shapes[k]).0,
        shapes[k].1.1 as int,
    ) by {
        lemma_lookup_at(shapes, k);
    }
}

/// Two raisings of the same inventory with the same target, cutoff and
/// window of strides leave the same shapes and the same pieces, in the same
/// order, and agree on whether every level could be folded.
pub proof fn lemma_raisings_agree(
    inv: Inventory,
    target: int,
    cutoff: int,
    min_stride: int,
    max_stride: int,
    first: (Inventory, bool),
    second: (Inventory, bool),
)
    requires
        first == raised(inv, 2, target, cutoff, min_stride, max_stride),
        second == raised(inv, 2, target, cutoff, min_stride, max_stride),
    ensures
        first.0.pats == second.0.pats,
        first.0.pieces == second.0.pieces,
        first.1 == second.1,
{
}

/// The origin of a record, as a key of the pieces.
pub open spec fn origin_of(rec: (OriginUwc, i32)) -> MetaPatternPiece {
    (rec.0.0, rec.0.1)
}

/// No two records start at the same position, and records with the same
/// id have the same pattern.
pub open spec fn records_apart(list: Seq<(OriginUwc, i32)>) -> bool {
    &&& forall|a: int, b: int|
        0 <= a < b < list.len() ==> origin_of(#[trigger] list[a]) != origin_of(#[trigger] list[b])
    &&& forall|a: int, b: int|
        0 <= a < list.len() && 0 <= b < list.len() && (#[trigger] list[a]).1 == (#[trigger] list[b]).1
            ==> record_pattern(list[a].0) == record_pattern(list[b].0)
}

/// The cell lies on the line of the record.
pub open spec fn on_record(rec: (OriginUwc, i32), c: (int, int)) -> bool {
    exists|n: int|
        0 <= n < record_pattern(rec.0).0 && #[trigger] step_of(
            origin_of(rec),
            record_pattern(rec.0),
            n,
        ) == c
}

/// The cell lies on the line of one of the first `upto` records.
pub open spec fn in_records(list: Seq<(OriginUwc, i32)>, upto: int, c: (int, int)) -> bool {
    exists|k: int| 0 <= k < upto && on_record(#[trigger] list[k], c)
}

/// The shape entry was made from one of the first `upto` records.
pub open spec fn from_record(list: Seq<(OriginUwc, i32)>, upto: int, entry: (i32, MetaPattern)) -> bool {
    exists|k: int|
        0 <= k < upto && (#[trigger] list[k]).1 == entry.0 && entry.1 == (
            record_pattern(list[k].0),
            1i32,
            None::<i32>,
        )
}

/// One of the first `upto` records starts at the position.
pub open spec fn starts_at(list: Seq<(OriginUwc, i32)>, upto: int, key: MetaPatternPiece) -> bool {
    exists|k: int| 0 <= k < upto && origin_of(#[trigger] list[k]) == key
}

/// The pieces that the inventory of a list of records holds: at the origin
/// of every record a piece with the id of the record, nothing elsewhere.
proof fn lemma_listed_pieces(list: Seq<(OriginUwc, i32)>, upto: int)
    requires
        records_apart(list),
        0 <= upto <= list.len(),
    ensures
        distinct_keys(listed_pieces(list, upto)),
        forall|k: int|
            0 <= k < upto ==> lookup(listed_pieces(list, upto), origin_of(#[trigger] list[k]))
                == Some(list[k].1),
        forall|key: MetaPatternPiece|
            has_key(listed_pieces(list, upto), key) ==> starts_at(list, upto, key),
    decreases upto,
{
    let pieces = listed_pieces(list, upto);
    if upto > 0 {
        lemma_listed_pieces(list, upto - 1);
        let held = listed_pieces(list, upto - 1);
        let rec = list[upto - 1];
        lemma_put(held, origin_of(rec), rec.1);
        assert(pieces == crate::ordered::put(held, origin_of(rec), rec.1));
        assert forall|k: int| 0 <= k < upto implies lookup(pieces, origin_of(#[trigger] list[k]))
            == Some(list[k].1) by {
            if k < upto - 1 {
                assert(origin_of(list[k]) != origin_of(list[upto - 1]));
            }
        }
        assert forall|key: MetaPatternPiece| has_key(pieces, key) implies starts_at(
            list,
            upto,
            key,
        ) by {
            if key == origin_of(rec) {
                assert(origin_of(list[upto - 1]) == key);
            } else {
                assert(starts_at(list, upto - 1, key));
                let k = choose|k: int| 0 <= k < upto - 1 && origin_of(#[trigger] list[k]) == key;
                assert(origin_of(list[k]) == key);
            }
        }
    }
}

/// Every shape on record was made from a record of the list, and no id
/// stands twice.
proof fn lemma_listed_made(list: Seq<(OriginUwc, i32)>, upto: int)
    requires
        0 <= upto <= list.len(),
    ensures
        distinct_keys(listed_shapes(list, upto)),
        forall|m: int|
            0 <= m < listed_shapes(list, upto).len() ==> from_record(
                list,
                upto,
                #[trigger] listed_shapes(list, upto)[m],
            ),
        forall|k: int| 0 <= k < upto ==> has_key(listed_shapes(list, upto), (#[trigger] list[k]).1),
    decreases upto,
{
    let shapes = listed_shapes(list, upto);
    if upto > 0 {
        lemma_listed_made(list, upto - 1);
        let before = listed_shapes(list, upto - 1);
        let id = list[upto - 1].1;
        assert forall|m: int| 0 <= m < shapes.len() implies from_record(
            list,
            upto,
            #[trigger] shapes[m],
        ) by {
            if m < before.len() {
                assert(shapes[m] == before[m]);
                assert(from_record(list, upto - 1, before[m]));
                let k = choose|k: int|
                    0 <= k < upto - 1 && (#[trigger] list[k]).1 == before[m].0 && before[m].1 == (
                        record_pattern(list[k].0),
                        1i32,
                        None::<i32>,
                    );
                assert(list[k].1 == shapes[m].0);
            } else {
                assert(list[upto - 1].1 == shapes[m].0);
            }
        }
        assert forall|a: int, b: int| 0 <= a < b < shapes.len() implies (#[trigger] shapes[a]).0
            != (#[trigger] shapes[b]).0 by {
            if b < before.len() {
                assert(before[a].0 != before[b].0);
            } else {
                assert(!has_key(before, id));
                assert(shapes[a] == before[a]);
            }
        }
        assert forall|k: int| 0 <= k < upto implies has_key(shapes, (#[trigger] list[k]).1) by {
            if k < upto - 1 || has_key(before, id) {
                let m = choose|m: int| 0 <= m < before.len() && (#[trigger] before[m]).0 == list[k].1;
                assert(shapes[m].0 == list[k].1);
            } else {
                assert(shapes[shapes.len() - 1].0 == id);
            }
        }
    }
}

/// What the inventory of a list of records holds: at the origin of every
/// record a piece with the id of the record, nothing elsewhere, and for
/// the id of every record a shape of order one with its pattern.
pub proof fn lemma_listed_lookups(list: Seq<(OriginUwc, i32)>, upto: int)
    requires
        records_valid(list),
        records_long(list),
        records_apart(list),
        0 <= upto <= list.len(),
    ensures
        forall|k: int|
            0 <= k < upto ==> lookup(listed_pieces(list, upto), origin_of(#[trigger] list[k]))
                == Some(list[k].1),
        forall|key: MetaPatternPiece|
            has_key(listed_pieces(list, upto), key) ==> starts_at(list, upto, key),
        forall|k: int|
            0 <= k < upto ==> lookup(listed_shapes(list, upto), (#[trigger] list[k]).1) == Some(
                (record_pattern(list[k].0), 1i32, None::<i32>),
            ),
        forall|m: int|
            0 <= m < listed_shapes(list, upto).len() ==> from_record(
                list,
                upto,
                #[trigger] listed_shapes(list, upto)[m],
            ),
{
    let shapes = listed_shapes(list, upto);
    lemma_listed_pieces(list, upto);
    lemma_listed_made(list, upto);
    assert forall|k: int| 0 <= k < upto implies lookup(shapes, (#[trigger] list[k]).1) == Some(
        (record_pattern(list[k].0), 1i32, None::<i32>),
    ) by {
        let id = list[k].1;
        let m = choose|m: int| 0 <= m < shapes.len() && (#[trigger] shapes[m]).0 == id;
        lemma_lookup_at(shapes, m);
        assert(from_record(list, upto, shapes[m]));
        let j = choose|j: int|
            0 <= j < upto && (#[trigger] list[j]).1 == shapes[m].0 && shapes[m].1 == (
                record_pattern(list[j].0),
                1i32,
                None::<i32>,
            );
        assert(list[j].1 == list[k].1);
    }
}

/// The inventory of a list of records stands for the cells on the lines of
/// the records.
pub proof fn lemma_listed_cover(list: Seq<(OriginUwc, i32)>, c: (int, int))
    requires
        records_valid(list),
        records_long(list),
        records_apart(list),
    ensures
        covered(listed_inventory(list, list.len() as int), c) <==> in_records(
            list,
            list.len() as int,
            c,
        ),
{
    let n = list.len() as int;
    let inv = listed_inventory(list, n);
    lemma_listed_lookups(list, n);
    if covered(inv, c) {
        let key = choose|key: MetaPatternPiece| #[trigger] reaches(inv, key, c);
        lemma_has_key(inv.pieces, key);
        assert(starts_at(list, n, key));
        let k = choose|k: int| 0 <= k < n && origin_of(#[trigger] list[k]) == key;
        lemma_record_cells(list, k, c);
        assert(on_record(list[k], c));
    }
    if in_records(list, n, c) {
        let k = choose|k: int| 0 <= k < n && on_record(#[trigger] list[k], c);
        lemma_record_cells(list, k, c);
        assert(reaches(inv, origin_of(list[k]), c));
    }
}

/// The piece that the inventory holds for a record has the cells on the
/// line of the record.
proof fn lemma_record_cells(list: Seq<(OriginUwc, i32)>, k: int, c: (int, int))
    requires
        0 <= k < list.len(),
        lookup(listed_shapes(list, list.len() as int), list[k].1) == Some(
            (record_pattern(list[k].0), 1i32, None::<i32>),
        ),
    ensures
        piece_cells(listed_shapes(list, list.len() as int), origin_of(list[k]), list[k].1).contains(
            c,
        ) <==> on_record(list[k], c),
{
    let pats = listed_shapes(list, list.len() as int);
    let p = record_pattern(list[k].0);
    let id = list[k].1;
    let origin = origin_of(list[k]);
    let ax = axes(pats, id, 1);
    assert(axes(pats, sub_id((p, 1i32, None::<i32>)), 0) == Seq::<Pattern>::empty());
    assert(ax =~= seq![p]);
    assert(ax.skip(1) =~= Seq::<Pattern>::empty());
    let row = origin.0 as int;
    let col = origin.1 as int;
    assert(piece_cells(pats, origin, id) == axis_cells(ax, row, col, p.0 as int));
    lemma_axis_cells(ax, row, col, p.0 as int, c);
    if on_repetition(ax, row, col, p.0 as int, c) {
        let n = choose|n: int| 0 <= n < p.0 && #[trigger] in_repetition(ax, row, col, n, c);
        let one = shape_cells(ax.skip(1), row + n * p.1, col + n * p.2);
        assert(one == seq![(row + n * p.1, col + n * p.2)]);
        let z = choose|z: int| 0 <= z < one.len() && one[z] == c;
        assert(step_of(origin, p, n) == c);
    }
    if on_record(list[k], c) {
        let n = choose|n: int| 0 <= n < p.0 && #[trigger] step_of(origin, p, n) == c;
        let one = shape_cells(ax.skip(1), row + n * p.1, col + n * p.2);
        assert(one == seq![(row + n * p.1, col + n * p.2)]);
        assert(one[0] == c);
        assert(in_repetition(ax, row, col, n, c));
    }
}

/// Raising the order of the inventory of a list of records keeps the
/// cover: after any number of levels, a cell is reached by expanding a
/// piece of the inventory exactly where it lies on the line of a record.
pub proof fn lemma_raising_keeps_cover(
    list: Seq<(OriginUwc, i32)>,
    target: int,
    cutoff: int,
    min_stride: int,
    max_stride: int,
    c: (int, int),
)
    requires
        records_valid(list),
        records_long(list),
        records_apart(list),
        cutoff >= 2,
        target <= 0x7FFF,
    ensures
        covered(
            raised(
                listed_inventory(list, list.len() as int),
                2,
                target,
                cutoff,
                min_stride,
                max_stride,
            ).0,
            c,
        ) <==> in_records(list, list.len() as int, c),
{
    let inv = listed_inventory(list, list.len() as int);
    lemma_listed_consistent(list, list.len() as int);
    lemma_raised_keeps(inv, 2, target, cutoff, min_stride, max_stride);
    lemma_listed_cover(list, c);
}

/// The piece at the position holds no cell twice.
pub open spec fn tidy(inv: Inventory, key: MetaPatternPiece) -> bool {
    match lookup(inv.pieces, key) {
        Some(id) => piece_cells(inv.pats, key, id).no_duplicates(),
        None => true,
    }
}

/// No cell is reached twice by expanding the inventory: no piece holds a
/// cell twice, and no two pieces hold the same cell.
pub open spec fn reached_once(inv: Inventory) -> bool {
    &&& forall|key: MetaPatternPiece| #[trigger] tidy(inv, key)
    &&& forall|a: MetaPatternPiece, b: MetaPatternPiece, c: (int, int)|
        #[trigger] reaches(inv, a, c) && #[trigger] reaches(inv, b, c) ==> a == b
}

/// The cells of the inner shape placed at the `k`-th repetition of the
/// outermost axis.
pub open spec fn block(ax: Seq<Pattern>, row: int, col: int, k: int) -> Seq<(int, int)> {
    shape_cells(ax.skip(1), row + k * ax[0].1, col + k * ax[0].2)
}

/// Repetitions that hold no cell twice and share no cell make up an axis
/// that holds no cell twice.
proof fn lemma_axis_once(ax: Seq<Pattern>, row: int, col: int, upto: int)
    requires
        ax.len() > 0,
        forall|k: int| 0 <= k < upto ==> (#[trigger] block(ax, row, col, k)).no_duplicates(),
        forall|k1: int, k2: int, c: (int, int)|
            0 <= k1 < k2 < upto && #[trigger] in_repetition(ax, row, col, k1, c)
                ==> !#[trigger] in_repetition(ax, row, col, k2, c),
    ensures
        axis_cells(ax, row, col, upto).no_duplicates(),
    decreases upto,
{
    if upto > 0 {
        lemma_axis_once(ax, row, col, upto - 1);
        let head = axis_cells(ax, row, col, upto - 1);
        let last = block(ax, row, col, upto - 1);
        assert(axis_cells(ax, row, col, upto) == head + last);
        assert forall|i: int, j: int| 0 <= i < head.len() && 0 <= j < last.len() implies head[i]
            != last[j] by {
            if head[i] == last[j] {
                let c = head[i];
                assert(head.contains(c));
                lemma_axis_cells(ax, row, col, upto - 1, c);
                let k = choose|k: int| 0 <= k < upto - 1 && #[trigger] in_repetition(ax, row, col, k, c);
                assert(last.contains(c));
                assert(in_repetition(ax, row, col, upto - 1, c));
            }
        }
        vstd::seq_lib::lemma_no_dup_in_concat(head, last);
    }
}

/// A new piece holds no cell twice where the pieces that it absorbed held
/// none twice and shared none.
proof fn lemma_new_piece_once(
    inv: Inventory,
    end: Inventory,
    origin: MetaPatternPiece,
    id: i32,
    t: Pattern,
    g: i32,
    dim: int,
)
    requires
        aug_ok(inv),
        reached_once(inv),
        2 <= dim <= 0x7FFF,
        absorbs(inv, origin, t, g),
        has_key(inv.pats, g),
        order_of(inv.pats, g) == dim - 1,
        lookup(end.pats, id) == Some((t, dim as i32, Some(g))),
        forall|x: i32| has_key(inv.pats, x) ==> lookup(end.pats, x) == lookup(inv.pats, x),
    ensures
        piece_cells(end.pats, origin, id).no_duplicates(),
{
    lemma_nested(inv.pats, g);
    lemma_same_chain(inv.pats, end.pats, g, dim - 1);
    let inner = axes(inv.pats, g, dim - 1);
    let ax = axes(end.pats, id, dim);
    assert(sub_id((t, dim as i32, Some(g))) == g);
    assert(ax == seq![t] + inner);
    assert(ax.skip(1) =~= inner);
    assert(ax[0] == t);
    assert(order_of(end.pats, id) == dim);
    let row = origin.0 as int;
    let col = origin.1 as int;
    assert(piece_cells(end.pats, origin, id) == axis_cells(ax, row, col, t.0 as int));
    assert forall|k: int| 0 <= k < t.0 implies (#[trigger] block(ax, row, col, k)).no_duplicates() by {
        let pos = step_of(origin, t, k);
        assert(held_at(inv.pieces, pos, g));
        assert(tidy(inv, key_of(pos)));
        assert(block(ax, row, col, k) == piece_cells(inv.pats, key_of(pos), g));
    }
    assert forall|k1: int, k2: int, c: (int, int)|
        0 <= k1 < k2 < t.0 && #[trigger] in_repetition(ax, row, col, k1, c)
        implies !#[trigger] in_repetition(ax, row, col, k2, c) by {
        if in_repetition(ax, row, col, k2, c) {
            let p1 = step_of(origin, t, k1);
            let p2 = step_of(origin, t, k2);
            assert(held_at(inv.pieces, p1, g));
            assert(held_at(inv.pieces, p2, g));
            assert(reaches(inv, key_of(p1), c));
            assert(reaches(inv, key_of(p2), c));
            assert(key_of(p1) == key_of(p2));
            assert(p1 == p2);
            lemma_steps_differ(origin, t, k1, k2);
        }
    }
    lemma_axis_once(ax, row, col, t.0 as int);
}

/// Two steps of a line that does not stand still are different positions.
proof fn lemma_steps_differ(origin: MetaPatternPiece, t: Pattern, k1: int, k2: int)
    requires
        k1 != k2,
        t.1 != 0 || t.2 != 0,
    ensures
        step_of(origin, t, k1) != step_of(origin, t, k2),
{
    let a = t.1 as int;
    let b = t.2 as int;
    if a != 0 {
        assert(k1 * a != k2 * a) by (nonlinear_arith)
            requires
                k1 != k2,
                a != 0,
        ;
    } else {
        assert(k1 * b != k2 * b) by (nonlinear_arith)
            requires
                k1 != k2,
                b != 0,
        ;
    }
}

/// The position lies on the line of the new piece `i`.
pub open spec fn on_line(out: Emitted, i: int, src: MetaPatternPiece) -> bool {
    exists|k: int|
        0 <= k < triple_of(out, i).0 && #[trigger] step_of(out.pieces[i].0, triple_of(out, i), k)
            == (src.0 as int, src.1 as int)
}

/// Where the piece at `key` has its cells from: a new piece from the
/// positions on its line, any other piece from its own position.
pub open spec fn feeds(out: Emitted, key: MetaPatternPiece, src: MetaPatternPiece) -> bool {
    if has_key(out.pieces, key) {
        exists|i: int| 0 <= i < out.pieces.len() && (#[trigger] out.pieces[i]).0 == key && on_line(out, i, src)
    } else {
        src == key
    }
}

/// The inventory before the level reached the cell from a position that
/// feeds the piece at `key`.
pub open spec fn sourced(inv: Inventory, out: Emitted, key: MetaPatternPiece, c: (int, int)) -> bool {
    exists|src: MetaPatternPiece| #[trigger] reaches(inv, src, c) && feeds(out, key, src)
}

/// A cell that the raised inventory reaches from a piece was reached
/// before from a position that feeds the piece.
proof fn lemma_source(
    inv: Inventory,
    dim: int,
    start: int,
    subs: Seq<i32>,
    out: Emitted,
    end: Inventory,
    key: MetaPatternPiece,
    c: (int, int),
)
    requires
        aug_ok(inv),
        2 <= dim <= 0x7FFF,
        0 <= start,
        emitted_ok(inv, dim, start, subs, out),
        forall|j: int|
            0 <= j < out.shapes.len() ==> lookup(end.pats, (#[trigger] out.shapes[j]).0) == Some(
                (out.shapes[j].1.0, dim as i32, out.shapes[j].1.2),
            ),
        forall|x: i32| has_key(inv.pats, x) ==> lookup(end.pats, x) == lookup(inv.pats, x),
        lookup(end.pieces, key) == if stepped(out, key) {
            None::<i32>
        } else if has_key(out.pieces, key) {
            lookup(out.pieces, key)
        } else {
            lookup(inv.pieces, key)
        },
        reaches(end, key, c),
    ensures
        sourced(inv, out, key, c),
        !stepped(out, key),
{
    lemma_new_origins(inv, dim, start, subs, out);
    lemma_ids_below(inv);
    let id = lookup(end.pieces, key).unwrap();
    if has_key(out.pieces, key) {
        let i = choose|i: int| 0 <= i < out.pieces.len() && (#[trigger] out.pieces[i]).0 == key;
        lemma_triple_of(inv, dim, start, subs, out, i);
        let j = out.pieces[i].1 - start;
        let t = out.shapes[j].1.0;
        let g = sub_id(out.shapes[j].1);
        assert(out.shapes[j].1.2 == Some(g)) by {
            reveal(emitted_ok);
        }
        assert(has_key(inv.pats, g) && order_of(inv.pats, g) == dim - 1) by {
            reveal(emitted_ok);
        }
        lemma_new_piece(inv, end, key, id, t, g, dim, c);
        let k = choose|k: int|
            0 <= k < t.0 && shape_cells(
                axes(inv.pats, g, dim - 1),
                (#[trigger] step_of(key, t, k)).0,
                step_of(key, t, k).1,
            ).contains(c);
        let pos = step_of(key, t, k);
        assert(held_at(inv.pieces, pos, g));
        let src = key_of(pos);
        assert(reaches(inv, src, c));
        assert(step_of(out.pieces[i].0, triple_of(out, i), k) == (src.0 as int, src.1 as int));
        assert(on_line(out, i, src));
        assert(feeds(out, key, src));
    } else {
        lemma_has_key(inv.pieces, key);
        lemma_nested(inv.pats, id);
        lemma_same_chain(inv.pats, end.pats, id, order_of(inv.pats, id));
        assert(reaches(inv, key, c));
        assert(feeds(out, key, key));
    }
}

/// Two pieces of the raised inventory that are fed from the same position
/// are the same piece.
proof fn lemma_same_feed(
    inv: Inventory,
    dim: int,
    start: int,
    subs: Seq<i32>,
    out: Emitted,
    a: MetaPatternPiece,
    b: MetaPatternPiece,
    src: MetaPatternPiece,
)
    requires
        0 <= start,
        emitted_ok(inv, dim, start, subs, out),
        feeds(out, a, src),
        feeds(out, b, src),
        !stepped(out, a),
        !stepped(out, b),
    ensures
        a == b,
{
    lemma_new_origins(inv, dim, start, subs, out);
    let spot = (src.0 as int, src.1 as int);
    if has_key(out.pieces, a) && has_key(out.pieces, b) {
        let i1 = choose|i: int|
            0 <= i < out.pieces.len() && (#[trigger] out.pieces[i]).0 == a && on_line(out, i, src);
        let i2 = choose|i: int|
            0 <= i < out.pieces.len() && (#[trigger] out.pieces[i]).0 == b && on_line(out, i, src);
        let k1 = choose|k: int|
            0 <= k < triple_of(out, i1).0 && #[trigger] step_of(
                out.pieces[i1].0,
                triple_of(out, i1),
                k,
            ) == spot;
        let k2 = choose|k: int|
            0 <= k < triple_of(out, i2).0 && #[trigger] step_of(
                out.pieces[i2].0,
                triple_of(out, i2),
                k,
            ) == spot;
        if i1 != i2 {
            reveal(emitted_ok);
            assert(step_of(out.pieces[i1].0, triple_of(out, i1), k1) != step_of(
                out.pieces[i2].0,
                triple_of(out, i2),
                k2,
            ));
        }
    } else if has_key(out.pieces, a) {
        lemma_fed_old(out, a, b);
    } else if has_key(out.pieces, b) {
        lemma_fed_old(out, b, a);
    }
}

/// A position that feeds a new piece and is no origin of a new piece is a
/// step behind the origin of the new piece.
proof fn lemma_fed_old(out: Emitted, a: MetaPatternPiece, src: MetaPatternPiece)
    requires
        has_key(out.pieces, a),
        feeds(out, a, src),
        !has_key(out.pieces, src),
    ensures
        stepped(out, src),
{
    let i = choose|i: int|
        0 <= i < out.pieces.len() && (#[trigger] out.pieces[i]).0 == a && on_line(out, i, src);
    let t = triple_of(out, i);
    let k = choose|k: int|
        0 <= k < t.0 && #[trigger] step_of(out.pieces[i].0, t, k) == (src.0 as int, src.1 as int);
    if k == 0 {
        assert(0 * t.1 == 0 && 0 * t.2 == 0);
        assert(src == a);
    } else {
        assert(on_steps(out.pieces[i].0, t, t.0 as int, src));
    }
}

/// After one level a piece holds no cell twice where none did before
/// and no two pieces shared a cell.
proof fn lemma_level_tidy(
    inv: Inventory,
    dim: int,
    cutoff: int,
    min_stride: int,
    max_stride: int,
    key: MetaPatternPiece,
)
    requires
        aug_ok(inv),
        reached_once(inv),
        cutoff >= 2,
        2 <= dim <= 0x7FFF,
        level_fits(inv, dim, cutoff, min_stride, max_stride),
    ensures
        tidy(level_up(inv, dim, cutoff, min_stride, max_stride), key),
{
    let out = level_out(inv, dim, cutoff, min_stride, max_stride);
    let start = free_id(inv.pats, inv.pats.len() as int);
    let end = level_up(inv, dim, cutoff, min_stride, max_stride);
    let ids = level_ids(inv, dim, inv.pieces.len() as int);
    let subs = ids.take(ids.len() as int);
    lemma_level_shape(inv, dim, cutoff, min_stride, max_stride);
    lemma_level_emits(inv, dim, cutoff, min_stride, max_stride, ids.len() as int);
    lemma_free_id(inv.pats, inv.pats.len() as int);
    lemma_ids_below(inv);
    lemma_new_origins(inv, dim, start, subs, out);
    if lookup(end.pieces, key) is Some {
        let id = lookup(end.pieces, key).unwrap();
        if has_key(out.pieces, key) {
            let i = choose|i: int| 0 <= i < out.pieces.len() && (#[trigger] out.pieces[i]).0 == key;
            lemma_triple_of(inv, dim, start, subs, out, i);
            let j = out.pieces[i].1 - start;
            let t = out.shapes[j].1.0;
            let g = sub_id(out.shapes[j].1);
            assert(out.shapes[j].1.2 == Some(g)) by {
                reveal(emitted_ok);
            }
            assert(has_key(inv.pats, g) && order_of(inv.pats, g) == dim - 1) by {
                reveal(emitted_ok);
            }
            lemma_new_piece_once(inv, end, key, id, t, g, dim);
        } else {
            lemma_has_key(inv.pieces, key);
            lemma_nested(inv.pats, id);
            lemma_same_chain(inv.pats, end.pats, id, order_of(inv.pats, id));
            assert(tidy(inv, key));
        }
    }
}

/// After one level no two pieces share a cell where none did before.
proof fn lemma_level_apart(
    inv: Inventory,
    dim: int,
    cutoff: int,
    min_stride: int,
    max_stride: int,
    a: MetaPatternPiece,
    b: MetaPatternPiece,
    c: (int, int),
)
    requires
        aug_ok(inv),
        reached_once(inv),
        cutoff >= 2,
        2 <= dim <= 0x7FFF,
        level_fits(inv, dim, cutoff, min_stride, max_stride),
        reaches(level_up(inv, dim, cutoff, min_stride, max_stride), a, c),
        reaches(level_up(inv, dim, cutoff, min_stride, max_stride), b, c),
    ensures
        a == b,
{
    let out = level_out(inv, dim, cutoff, min_stride, max_stride);
    let start = free_id(inv.pats, inv.pats.len() as int);
    let end = level_up(inv, dim, cutoff, min_stride, max_stride);
    let ids = level_ids(inv, dim, inv.pieces.len() as int);
    let subs = ids.take(ids.len() as int);
    lemma_level_shape(inv, dim, cutoff, min_stride, max_stride);
    lemma_level_emits(inv, dim, cutoff, min_stride, max_stride, ids.len() as int);
    lemma_free_id(inv.pats, inv.pats.len() as int);
    lemma_source(inv, dim, start, subs, out, end, a, c);
    lemma_source(inv, dim, start, subs, out, end, b, c);
    let s1 = choose|src: MetaPatternPiece| #[trigger] reaches(inv, src, c) && feeds(out, a, src);
    let s2 = choose|src: MetaPatternPiece| #[trigger] reaches(inv, src, c) && feeds(out, b, src);
    assert(s1 == s2);
    lemma_same_feed(inv, dim, start, subs, out, a, b, s1);
}

/// One level reaches no cell twice where none was reached twice before.
pub proof fn lemma_level_once(inv: Inventory, dim: int, cutoff: int, min_stride: int, max_stride: int)
    requires
        aug_ok(inv),
        reached_once(inv),
        cutoff >= 2,
        2 <= dim <= 0x7FFF,
        level_fits(inv, dim, cutoff, min_stride, max_stride),
    ensures
        reached_once(level_up(inv, dim, cutoff, min_stride, max_stride)),
{
    let end = level_up(inv, dim, cutoff, min_stride, max_stride);
    assert forall|key: MetaPatternPiece| #[trigger] tidy(end, key) by {
        lemma_level_tidy(inv, dim, cutoff, min_stride, max_stride, key);
    }
    assert forall|a: MetaPatternPiece, b: MetaPatternPiece, c: (int, int)|
        #[trigger] reaches(end, a, c) && #[trigger] reaches(end, b, c) implies a == b by {
        lemma_level_apart(inv, dim, cutoff, min_stride, max_stride, a, b, c);
    }
}

/// Raising the order reaches no cell twice: where the pieces of the
/// inventory held no cell twice and shared none, this is so after any
/// number of levels. With the cells being the same, the inventory stands
/// for the same cells as often as before: once each.
pub proof fn lemma_raised_once(
    inv: Inventory,
    dim: int,
    target: int,
    cutoff: int,
    min_stride: int,
    max_stride: int,
)
    requires
        aug_ok(inv),
        reached_once(inv),
        cutoff >= 2,
        2 <= dim,
        target <= 0x7FFF,
    ensures
        reached_once(raised(inv, dim, target, cutoff, min_stride, max_stride).0),
    decreases target - dim + 1,
{
    if dim <= target && level_fits(inv, dim, cutoff, min_stride, max_stride) {
        let next = level_up(inv, dim, cutoff, min_stride, max_stride);
        lemma_level_keeps(inv, dim, cutoff, min_stride, max_stride);
        lemma_level_once(inv, dim, cutoff, min_stride, max_stride);
        lemma_raised_once(next, dim + 1, target, cutoff, min_stride, max_stride);
    }
}

/// No two records share a cell, and no record of more than one cell
/// stands still.
pub open spec fn records_disjoint(list: Seq<(OriginUwc, i32)>) -> bool {
    &&& forall|a: int, b: int, c: (int, int)|
        0 <= a < list.len() && 0 <= b < list.len() && a != b && #[trigger] on_record(list[a], c)
            ==> !#[trigger] on_record(list[b], c)
    &&& forall|k: int|
        0 <= k < list.len() && record_pattern((#[trigger] list[k]).0).0 >= 2 ==> record_pattern(
            list[k].0,
        ).1 != 0 || record_pattern(list[k].0).2 != 0
}

/// The piece that the inventory holds for a record holds no cell twice
/// where the record does not stand still.
proof fn lemma_record_once(list: Seq<(OriginUwc, i32)>, k: int)
    requires
        0 <= k < list.len(),
        lookup(listed_shapes(list, list.len() as int), list[k].1) == Some(
            (record_pattern(list[k].0), 1i32, None::<i32>),
        ),
        record_pattern(list[k].0).0 >= 2 ==> record_pattern(list[k].0).1 != 0 || record_pattern(
            list[k].0,
        ).2 != 0,
    ensures
        piece_cells(listed_shapes(list, list.len() as int), origin_of(list[k]), list[k].1).no_duplicates(),
{
    let pats = listed_shapes(list, list.len() as int);
    let p = record_pattern(list[k].0);
    let id = list[k].1;
    let origin = origin_of(list[k]);
    let ax = axes(pats, id, 1);
    assert(axes(pats, sub_id((p, 1i32, None::<i32>)), 0) == Seq::<Pattern>::empty());
    assert(ax =~= seq![p]);
    assert(ax.skip(1) =~= Seq::<Pattern>::empty());
    let row = origin.0 as int;
    let col = origin.1 as int;
    assert(piece_cells(pats, origin, id) == axis_cells(ax, row, col, p.0 as int));
    assert forall|n: int| 0 <= n < p.0 implies (#[trigger] block(ax, row, col, n)).no_duplicates() by {
        assert(block(ax, row, col, n) == seq![(row + n * p.1, col + n * p.2)]);
    }
    assert forall|n1: int, n2: int, c: (int, int)|
        0 <= n1 < n2 < p.0 && #[trigger] in_repetition(ax, row, col, n1, c)
        implies !#[trigger] in_repetition(ax, row, col, n2, c) by {
        if in_repetition(ax, row, col, n2, c) {
            let one = block(ax, row, col, n1);
            let two = block(ax, row, col, n2);
            assert(one == seq![(row + n1 * p.1, col + n1 * p.2)]);
            assert(two == seq![(row + n2 * p.1, col + n2 * p.2)]);
            let z1 = choose|z: int| 0 <= z < one.len() && one[z] == c;
            let z2 = choose|z: int| 0 <= z < two.len() && two[z] == c;
            assert(step_of(origin, p, n1) == step_of(origin, p, n2));
            lemma_steps_differ(origin, p, n1, n2);
        }
    }
    lemma_axis_once(ax, row, col, p.0 as int);
}

/// The inventory of a list of records that share no cell reaches no cell
/// twice.
pub proof fn lemma_listed_once(list: Seq<(OriginUwc, i32)>)
    requires
        records_valid(list),
        records_long(list),
        records_apart(list),
        records_disjoint(list),
    ensures
        reached_once(listed_inventory(list, list.len() as int)),
{
    let n = list.len() as int;
    let inv = listed_inventory(list, n);
    lemma_listed_lookups(list, n);
    assert forall|key: MetaPatternPiece| #[trigger] tidy(inv, key) by {
        if lookup(inv.pieces, key) is Some {
            lemma_has_key(inv.pieces, key);
            assert(starts_at(list, n, key));
            let k = choose|k: int| 0 <= k < n && origin_of(#[trigger] list[k]) == key;
            lemma_record_once(list, k);
        }
    }
    assert forall|a: MetaPatternPiece, b: MetaPatternPiece, c: (int, int)|
        #[trigger] reaches(inv, a, c) && #[trigger] reaches(inv, b, c) implies a == b by {
        lemma_has_key(inv.pieces, a);
        lemma_has_key(inv.pieces, b);
        assert(starts_at(list, n, a));
        assert(starts_at(list, n, b));
        let ka = choose|k: int| 0 <= k < n && origin_of(#[trigger] list[k]) == a;
        let kb = choose|k: int| 0 <= k < n && origin_of(#[trigger] list[k]) == b;
        lemma_record_cells(list, ka, c);
        lemma_record_cells(list, kb, c);
        assert(on_record(list[ka], c));
        assert(on_record(list[kb], c));
    }
}

/// Raising the order of the inventory of a list of records keeps the
/// cover, cell by cell: where no two records share a cell, after any
/// number of levels every cell on the line of a record is reached once,
/// and no other cell is reached.
pub proof fn lemma_raising_keeps_cells(
    list: Seq<(OriginUwc, i32)>,
    target: int,
    cutoff: int,
    min_stride: int,
    max_stride: int,
)
    requires
        records_valid(list),
        records_long(list),
        records_apart(list),
        records_disjoint(list),
        cutoff >= 2,
        target <= 0x7FFF,
    ensures
        reached_once(
            raised(
                listed_inventory(list, list.len() as int),
                2,
                target,
                cutoff,
                min_stride,
                max_stride,
            ).0,
        ),
        forall|c: (int, int)|
            covered(
                raised(
                    listed_inventory(list, list.len() as int),
                    2,
                    target,
                    cutoff,
                    min_stride,
                    max_stride,
                ).0,
                c,
            ) <==> in_records(list, list.len() as int, c),
{
    let inv = listed_inventory(list, list.len() as int);
    lemma_listed_consistent(list, list.len() as int);
    lemma_listed_once(list);
    lemma_raised_once(inv, 2, target, cutoff, min_stride, max_stride);
    assert forall|c: (int, int)|
        covered(raised(inv, 2, target, cutoff, min_stride, max_stride).0, c) <==> in_records(
            list,
            list.len() as int,
            c,
        ) by {
        lemma_raising_keeps_cover(list, target, cutoff, min_stride, max_stride, c);
    }
}

/// Every stride of the occurrences lies in the window.
pub open spec fn strides_within(occ: Seq<Occurrence>, min_stride: int, max_stride: int) -> bool {
    forall|q: int| 0 <= q < occ.len() ==> in_window((#[trigger] occ[q]).0, min_stride, max_stride)
}

/// Every shape steps by a stride inside the window.
pub open spec fn shapes_within(shapes: Seq<(i32, MetaPattern)>, min_stride: int, max_stride: int) -> bool {
    forall|j: int|
        0 <= j < shapes.len() ==> in_window(
            ((#[trigger] shapes[j]).1.0.1, shapes[j].1.0.2),
            min_stride,
            max_stride,
        )
}

/// The strides collected from an origin lie in the window.
proof fn lemma_strides_from_within(origins: Seq<(i32, i32)>, a: int, upto: int, min: int, max: int)
    ensures
        forall|k: int|
            0 <= k < strides_from(origins, a, upto, min, max).len() ==> in_window(
                #[trigger] strides_from(origins, a, upto, min, max)[k],
                min,
                max,
            ),
    decreases upto,
{
    if !(upto <= a + 1 || upto <= 0) {
        lemma_strides_from_within(origins, a, upto - 1, min, max);
        let prev = strides_from(origins, a, upto - 1, min, max);
        let out = strides_from(origins, a, upto, min, max);
        assert forall|k: int| 0 <= k < out.len() implies in_window(#[trigger] out[k], min, max) by {
            if k < prev.len() {
                assert(out[k] == prev[k]);
            }
        }
    }
}

/// The strides collected lie in the window.
proof fn lemma_strides_of_within(origins: Seq<(i32, i32)>, upto: int, min: int, max: int)
    ensures
        forall|k: int|
            0 <= k < strides_of(origins, upto, min, max).len() ==> in_window(
                #[trigger] strides_of(origins, upto, min, max)[k],
                min,
                max,
            ),
    decreases upto,
{
    if upto > 0 {
        lemma_strides_of_within(origins, upto - 1, min, max);
        lemma_strides_from_within(origins, upto - 1, origins.len() as int, min, max);
        let prev = strides_of(origins, upto - 1, min, max);
        let more = strides_from(origins, upto - 1, origins.len() as int, min, max);
        let out = strides_of(origins, upto, min, max);
        assert forall|k: int| 0 <= k < out.len() implies in_window(#[trigger] out[k], min, max) by {
            if k < prev.len() {
                assert(out[k] == prev[k]);
            } else {
                assert(out[k] == more[k - prev.len()]);
            }
        }
    }
}

/// The occurrence list of a group holds strides of the window only.
proof fn lemma_occurrences_within(origins: Seq<(i32, i32)>, min: int, max: int)
    requires
        strides_of(origins, origins.len() as int, min, max).len() < 0x7FFF_FFFF,
    ensures
        strides_within(occurrences(origins, min, max), min, max),
{
    let n = origins.len() as int;
    let strides = strides_of(origins, n, min, max);
    lemma_strides_of_within(origins, n, min, max);
    let counts = counted(strides, strides.len() as int);
    lemma_counted(strides, strides.len() as int);
    let occ = ranked(counts, counts.len() as int);
    lemma_ranked(counts, counts.len() as int);
    assert forall|q: int| 0 <= q < occ.len() implies in_window((#[trigger] occ[q]).0, min, max) by {
        assert(counts.contains(occ[q]));
        let m = choose|m: int| 0 <= m < counts.len() && counts[m] == occ[q];
        assert(strides.contains(counts[m].0));
        let k = choose|k: int| 0 <= k < strides.len() && strides[k] == counts[m].0;
        assert(in_window(strides[k], min, max));
    }
}

/// A folding that counts strides of the window only emits shapes with
/// strides of the window only.
proof fn lemma_folded_within(
    st: Folding,
    cutoff: int,
    total: int,
    start_id: i32,
    low_id: i32,
    fuel: nat,
    min: int,
    max: int,
)
    requires
        2 <= cutoff <= i32::MAX,
        strides_within(st.occ, min, max),
        shapes_within(st.shapes, min, max),
    ensures
        shapes_within(folded(st, cutoff, total, start_id, low_id, fuel).shapes, min, max),
    decreases fuel,
{
    if fuel > 0 {
        match find_piece(st.cells, st.occ, cutoff, total, sentinel(cutoff), 0) {
            None => {},
            Some(best) => {
                lemma_find(st.cells, st.occ, cutoff, total, sentinel(cutoff), 0);
                let m = choose|m: int|
                    0 <= m < st.occ.len() && from_probe(
                        st.cells,
                        probe_pattern(#[trigger] st.occ[m]),
                        best,
                    );
                let pattern = probe_pattern(st.occ[m]);
                let k = choose|k: int|
                    0 <= k < st.cells.len() && best == probe(
                        st.cells,
                        (#[trigger] st.cells[k]).0,
                        st.cells[k].1,
                        pattern,
                    );
                assert((best.2.1, best.2.2) == st.occ[m].0);
                let next = commit(st, best, start_id, low_id);
                assert(strides_within(next.occ, min, max)) by {
                    assert forall|q: int| 0 <= q < next.occ.len() implies in_window(
                        (#[trigger] next.occ[q]).0,
                        min,
                        max,
                    ) by {
                        assert(next.occ[q].0 == st.occ[q].0);
                    }
                }
                assert(shapes_within(next.shapes, min, max)) by {
                    assert forall|j: int| 0 <= j < next.shapes.len() implies in_window(
                        ((#[trigger] next.shapes[j]).1.0.1, next.shapes[j].1.0.2),
                        min,
                        max,
                    ) by {
                        if j < st.shapes.len() {
                            assert(next.shapes[j] == st.shapes[j]);
                        }
                    }
                }
                lemma_folded_within(next, cutoff, total, start_id, low_id, (fuel - 1) as nat, min, max);
            },
        }
    }
}

/// The steps of the new piece `i` of a group are origins of the group.
pub open spec fn on_origins(origins: Seq<(i32, i32)>, f: Emitted, i: int) -> bool {
    forall|k: int|
        0 <= k < triple_of(f, i).0 ==> {
            let pos = #[trigger] step_of(f.pieces[i].0, triple_of(f, i), k);
            0 <= pos.0 <= i32::MAX && 0 <= pos.1 <= i32::MAX && origins.contains(
                (pos.0 as i32, pos.1 as i32),
            )
        }
}

/// What the folding of a group emits. A group of fewer origins than the
/// cutoff emits nothing. The shapes are numbered from `start_id` on; each
/// has the order 0 still, repeats the shape `low_id`, has at least
/// `cutoff` repetitions at a stride inside the window, and is named by a
/// piece. Each piece names one of the shapes; its steps are origins of the
/// group, and no two pieces step on the same origin.
pub proof fn lemma_fold_result(
    origins: Seq<(i32, i32)>,
    cutoff: int,
    start_id: i32,
    low_id: i32,
    min_stride: int,
    max_stride: int,
)
    requires
        origins_valid(origins),
        strides_of(origins, origins.len() as int, min_stride, max_stride).len() < 0x7FFF_FFFF,
        cutoff >= 2,
        0 <= start_id,
        start_id + origins.len() <= i32::MAX,
    ensures
        ({
            let g = group_fold(origins, cutoff, start_id, low_id, min_stride, max_stride);
            let f = Emitted { shapes: g.shapes, pieces: g.pieces };
            &&& origins.len() < cutoff ==> f.shapes.len() == 0 && f.pieces.len() == 0
            &&& f.shapes.len() <= f.pieces.len() <= origins.len()
            &&& forall|j: int|
                0 <= j < f.shapes.len() ==> {
                    &&& (#[trigger] f.shapes[j]).0 == start_id + j
                    &&& f.shapes[j].1.1 == 0
                    &&& f.shapes[j].1.2 == Some(low_id)
                    &&& f.shapes[j].1.0.0 >= cutoff
                    &&& in_window((f.shapes[j].1.0.1, f.shapes[j].1.0.2), min_stride, max_stride)
                    &&& shape_used(f, j)
                }
            &&& forall|i: int|
                0 <= i < f.pieces.len() ==> start_id <= (#[trigger] f.pieces[i]).1 < start_id
                    + f.shapes.len() && triple_of(f, i) == f.shapes[f.pieces[i].1 - start_id].1.0
                    && on_origins(origins, f, i)
            &&& forall|i1: int, i2: int, k1: int, k2: int|
                0 <= i1 < f.pieces.len() && 0 <= i2 < f.pieces.len() && i1 != i2 && 0 <= k1
                    < triple_of(f, i1).0 && 0 <= k2 < triple_of(f, i2).0 ==> #[trigger] step_of(
                    f.pieces[i1].0,
                    triple_of(f, i1),
                    k1,
                ) != #[trigger] step_of(f.pieces[i2].0, triple_of(f, i2), k2)
        }),
{
    let g = group_fold(origins, cutoff, start_id, low_id, min_stride, max_stride);
    let f = Emitted { shapes: g.shapes, pieces: g.pieces };
    let t = group_trace(origins, cutoff, start_id, low_id, min_stride, max_stride);
    let start = stored_cells(as_coords(origins));
    let first = unfolded(origins, min_stride, max_stride);
    lemma_group(origins, cutoff, start_id, low_id, min_stride, max_stride);
    lemma_stored_len(origins);
    lemma_trace_len(first, cutoff, origins.len() as int, start_id, low_id, start.len());
    lemma_occurrences_within(origins, min_stride, max_stride);
    if origins.len() >= cutoff {
        lemma_folded_within(
            first,
            cutoff,
            origins.len() as int,
            start_id,
            low_id,
            start.len(),
            min_stride,
            max_stride,
        );
    }
    reveal(fold_inv);
    lemma_numbered(f.shapes, start_id as int);
    assert forall|i: int| 0 <= i < f.pieces.len() implies start_id <= (#[trigger] f.pieces[i]).1
        < start_id + f.shapes.len() && triple_of(f, i) == f.shapes[f.pieces[i].1 - start_id].1.0
        && triple_of(f, i) == t[i].2 by {
        assert(names_shape(g, i, t[i].2));
        let j = choose|j: int|
            0 <= j < g.shapes.len() && g.pieces[i].1 == (#[trigger] g.shapes[j]).0
                && g.shapes[j].1.0 == t[i].2;
        assert(lookup(f.shapes, f.shapes[j].0) == Some(f.shapes[j].1));
    }
    assert forall|j: int| 0 <= j < f.shapes.len() implies (#[trigger] f.shapes[j]).1.0.0 >= cutoff
        && shape_used(f, j) by {
        assert(has_piece(g, j));
        let i = choose|i: int| 0 <= i < g.pieces.len() && (#[trigger] g.pieces[i]).1 == g.shapes[j].0;
        assert(triple_of(f, i) == t[i].2);
        assert(f.pieces[i].1 - start_id == j);
        assert(t[i].2.0 >= cutoff);
    }
    assert forall|i: int| 0 <= i < f.pieces.len() implies on_origins(origins, f, i) by {
        let triple = t[i].2;
        let origin = f.pieces[i].0;
        assert(origin == (t[i].0, t[i].1));
        assert(piece_free(start, t[i]));
        assert forall|k: int| 0 <= k < triple_of(f, i).0 implies {
            let pos = #[trigger] step_of(f.pieces[i].0, triple_of(f, i), k);
            0 <= pos.0 <= i32::MAX && 0 <= pos.1 <= i32::MAX && origins.contains(
                (pos.0 as i32, pos.1 as i32),
            )
        } by {
            let pos = piece_cell(t[i], k);
            assert(step_of(origin, triple, k) == pos);
            assert(uncovered_at(start, pos));
            assert(has_entry(start, pos.0, pos.1)) by {
                let e = choose|e: int|
                    0 <= e < start.len() && #[trigger] start[e].0 == pos.0 && start[e].1 == pos.1
                        && start[e].2 == false;
                assert(start[e].0 == pos.0 && start[e].1 == pos.1);
            }
            let m = choose|m: int|
                0 <= m < origins.len() && (#[trigger] as_coords(origins)[m]).0 == pos.0 && as_coords(
                    origins,
                )[m].1 == pos.1;
            assert(origins[m].0 >= 0 && origins[m].1 >= 0);
            assert(origins[m] == (pos.0 as i32, pos.1 as i32));
        }
    }
    assert forall|i1: int, i2: int, k1: int, k2: int|
        0 <= i1 < f.pieces.len() && 0 <= i2 < f.pieces.len() && i1 != i2 && 0 <= k1 < triple_of(
            f,
            i1,
        ).0 && 0 <= k2 < triple_of(f, i2).0 implies #[trigger] step_of(
        f.pieces[i1].0,
        triple_of(f, i1),
        k1,
    ) != #[trigger] step_of(f.pieces[i2].0, triple_of(f, i2), k2) by {
        assert(triple_of(f, i1) == t[i1].2);
        assert(triple_of(f, i2) == t[i2].2);
        assert(f.pieces[i1].0 == (t[i1].0, t[i1].1));
        assert(f.pieces[i2].0 == (t[i2].0, t[i2].1));
        if i1 < i2 {
            assert(disjoint(t[i1], t[i2]));
            assert(piece_cell(t[i1], k1) != piece_cell(t[i2], k2));
        } else {
            assert(disjoint(t[i2], t[i1]));
            assert(piece_cell(t[i2], k2) != piece_cell(t[i1], k1));
        }
    }
}

/// The folding of a group starts with its invariant in place: the origins
/// are laid out in row-major order, none absorbed, and nothing is
/// committed.
pub proof fn lemma_unfolded_inv(
    origins: Seq<(i32, i32)>,
    cutoff: int,
    start_id: i32,
    low_id: i32,
    min_stride: int,
    max_stride: int,
)
    requires
        origins_valid(origins),
        strides_of(origins, origins.len() as int, min_stride, max_stride).len() < 0x7FFF_FFFF,
    ensures
        row_major_sorted(stored_cells(as_coords(origins))),
        all_free(stored_cells(as_coords(origins))),
        fold_inv(
            stored_cells(as_coords(origins)),
            origins,
            unfolded(origins, min_stride, max_stride),
            Seq::<Piece>::empty(),
            cutoff,
            start_id,
            low_id,
        ),
{
    let coords = as_coords(origins);
    let start = unfolded(origins, min_stride, max_stride);
    assert(coords_within(coords, 0x8000_0000, 0x8000_0000)) by {
        assert forall|k: int| 0 <= k < coords.len() implies (#[trigger] coords[k]).0 < 0x8000_0000
            && coords[k].1 < 0x8000_0000 by {
            assert(origins[k].0 >= 0 && origins[k].1 >= 0);
        }
    }
    lemma_stored_cells(coords, 0x8000_0000, 0x8000_0000);
    lemma_occurrences(origins, min_stride, max_stride);
    let none = Seq::<Piece>::empty();
    reveal(fold_inv);
    let st = SearchState { cells: start.cells, pieces: none };
    assert(cover_inv(start.cells, st)) by {
        assert forall|idx: int| 0 <= idx < st.cells.len() implies (#[trigger] st.cells[idx]).2
            == claimed_by(st.pieces, start.cells[idx].0 as int, start.cells[idx].1 as int) by {}
    }
}

/// The entries without the key of their last entry, where no other entry
/// has it, are the entries before the last.
proof fn lemma_without_last<K, V>(s: Seq<(K, V)>)
    requires
        s.len() > 0,
        distinct_keys(s),
    ensures
        without_key(s, s.last().0) == s.drop_last(),
{
    let key = s.last().0;
    let rest = s.drop_last();
    assert(!has_key(rest, key)) by {
        if has_key(rest, key) {
            let k = choose|k: int| 0 <= k < rest.len() && (#[trigger] rest[k]).0 == key;
            assert(s[k].0 == s[s.len() - 1].0);
        }
    }
    assert forall|a: int, b: int| 0 <= a < b < rest.len() implies (#[trigger] rest[a]).0
        != (#[trigger] rest[b]).0 by {
        assert(s[a].0 != s[b].0);
    }
    lemma_without_key_absent(rest, key);
}

/// A commit enters its shape and its piece as insertions into maps do:
/// the shape under its id, which is new or that of the last shape, the same
/// shape; the piece under its origin, where no piece stood.
pub proof fn lemma_commit_puts(
    start: Seq<Cell>,
    origins: Seq<(i32, i32)>,
    st: Folding,
    done: Seq<Piece>,
    best: Piece,
    cutoff: int,
    total: int,
    start_id: i32,
    low_id: i32,
)
    requires
        row_major_sorted(start),
        all_free(start),
        cutoff >= 2,
        start_id + done.len() < 0x7FFF_FFFF,
        0 <= start_id,
        fold_inv(start, origins, st, done, cutoff, start_id, low_id),
        find_piece(st.cells, st.occ, cutoff, total, sentinel(cutoff), 0) == Some(best),
    ensures
        commit(st, best, start_id, low_id).shapes == put(
            st.shapes,
            next_id(st.shapes, best.2, start_id),
            (best.2, 0i32, Some(low_id)),
        ),
        commit(st, best, start_id, low_id).pieces == put(
            st.pieces,
            (best.0, best.1),
            next_id(st.shapes, best.2, start_id),
        ),
{
    lemma_commit_step(start, origins, st, done, best, cutoff, total, start_id, low_id);
    let next = commit(st, best, start_id, low_id);
    let id = next_id(st.shapes, best.2, start_id);
    let shape = (best.2, 0i32, Some(low_id));
    let key = (best.0, best.1);
    // the shapes
    assert(distinct_keys(st.shapes) && forall|j: int|
        0 <= j < st.shapes.len() ==> (#[trigger] st.shapes[j]).0 == start_id + j && st.shapes[j].1.1
            == 0 && st.shapes[j].1.2 == Some(low_id)) by {
        reveal(fold_inv);
        lemma_numbered(st.shapes, start_id as int);
    }
    assert(st.shapes.len() <= done.len()) by {
        reveal(fold_inv);
    }
    if st.shapes.len() > 0 && st.shapes.last().1.0 == best.2 {
        let last = st.shapes.last();
        assert(last == st.shapes[st.shapes.len() - 1]);
        assert(last == (id, shape));
        lemma_without_last(st.shapes);
        assert(st.shapes.drop_last().push(last) =~= st.shapes);
    } else {
        assert(!has_key(st.shapes, id)) by {
            if has_key(st.shapes, id) {
                let k = choose|k: int| 0 <= k < st.shapes.len() && (#[trigger] st.shapes[k]).0 == id;
                if st.shapes.len() > 0 {
                    assert(st.shapes.last() == st.shapes[st.shapes.len() - 1]);
                }
            }
        }
        lemma_put(st.shapes, id, shape);
        if st.shapes.len() > 0 {
            assert(st.shapes.last() == st.shapes[st.shapes.len() - 1]);
            assert(st.shapes.last().0 != id);
        }
    }
    // the pieces
    assert(distinct_keys(st.pieces) && !has_key(st.pieces, key)) by {
        reveal(fold_inv);
        let more = done.push(best);
        assert(crate::cover::pairwise_disjoint(more));
        assert forall|i: int| 0 <= i < st.pieces.len() implies (#[trigger] st.pieces[i]).0 != key by {
            assert(more[i] == done[i]);
            assert(more[done.len() as int] == best);
            assert(disjoint(more[i], more[done.len() as int]));
            assert(done[i].2.0 >= 1 && best.2.0 >= 1);
            assert(piece_cell(done[i], 0) != piece_cell(best, 0));
        }
        assert forall|a: int, b: int| 0 <= a < b < st.pieces.len() implies (#[trigger] st.pieces[a]).0
            != (#[trigger] st.pieces[b]).0 by {
            assert(disjoint(done[a], done[b]));
            assert(done[a].2.0 >= 1 && done[b].2.0 >= 1);
            assert(piece_cell(done[a], 0) != piece_cell(done[b], 0));
        }
        if has_key(st.pieces, key) {
            let i = choose|i: int| 0 <= i < st.pieces.len() && (#[trigger] st.pieces[i]).0 == key;
        }
    }
    lemma_put(st.pieces, key, id);
}

} // verus!
