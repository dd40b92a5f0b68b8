//! The inventory that a binary file is written from: shapes by id, pieces by
//! origin, both in the order that fixes the layout of the file.

use vstd::prelude::*;
use linked_hash_map::LinkedHashMap;
pub use crate::spfread::{convert_spf, convert_spf_for_timing, recursive_populate_row_col_vec};
use crate::inventory::{pieces_ok, select, shapes_ok, single_shape, singles_last, SINGLE};
use crate::ordered::{
    distinct_keys, distinct_patterns, has_key, last_occurrences, lemma_lookup_at, lemma_put, lookup,
    pattern_entries, patterns_insert, patterns_new, patterns_to_vec, piece_entries, pieces_insert,
    pieces_new, pieces_to_vec, put, without_value,
};
use crate::utils::{
    axes, hyperrect_u, hyperrect_w, lattice, lemma_axes, metapattern_to_hyperrectangle_uwc,
    nested_ok, order_of, rows_view, MetaPattern, MetaPatternPiece, OriginUwc, Pattern, Piece, Uwc,
};
use crate::errors::ErrorKind;
use crate::grid::{
    coords_within, csr_of_points, has_entry, row_major_sorted, rows_before, stored_cells, ValueGrid,
};
use crate::inventory::{axis_cells, lemma_shape_size, piece_cells, shape_cells, shape_size};
use crate::layout::{
    axes_of, cutoff, data_start, dims_max, encodable, file_bytes, first_ids, has_all, has_values,
    header_back, header_front, i32_fields, lattice_out, lemma_i32_fields_push,
    lemma_u64_fields_push, lengths, offset_before, origin_record, origin_table, placed_count, rank,
    repeated, reserved, resid, row_pointers, shape_record, shape_table, single_index, single_points,
    tail_points, top_order, u64_fields, used_ids, uses_csr, values_before, values_of, FileView,
};
use crate::ordered::{patterns_get, rank_entries, ranks_collect, ranks_get};
use crate::wire::{le_i32, lemma_fields, put_i16, put_i32, put_u64, put_u8};
use crate::utils::lemma_step_bound;

verus! {

/// The patterns of more than one cell among the first `upto` pieces, in
/// their order.
pub open spec fn long_patterns(list: Seq<Piece>, upto: int) -> Seq<Pattern>
    decreases upto,
{
    if upto <= 0 {
        Seq::empty()
    } else if list[upto - 1].2.0 > 1 {
        long_patterns(list, upto - 1).push(list[upto - 1].2)
    } else {
        long_patterns(list, upto - 1)
    }
}

/// The number of single points among the first `upto` pieces.
pub open spec fn count_singles(list: Seq<Piece>, upto: int) -> int
    decreases upto,
{
    if upto <= 0 {
        0
    } else {
        count_singles(list, upto - 1) + if list[upto - 1].2.0 == 1 {
            1int
        } else {
            0int
        }
    }
}

/// The patterns as shapes of order one, numbered from 0 in their order.
pub open spec fn numbered(distinct: Seq<Pattern>) -> Seq<(i32, MetaPattern)> {
    Seq::new(distinct.len(), |k: int| (k as i32, (distinct[k], 1i32, None::<i32>)))
}

/// The shapes that a list of pieces gives rise to: its distinct patterns of
/// more than one cell, numbered in the order of their last occurrences, and
/// behind them the single point under its reserved id.
pub open spec fn list_shapes(list: Seq<Piece>) -> Seq<(i32, MetaPattern)> {
    numbered(last_occurrences(long_patterns(list, list.len() as int))).push((SINGLE, single_shape()))
}

/// The id of the last of the first `upto` shapes whose outermost axis is
/// the pattern.
pub open spec fn id_of(shapes: Seq<(i32, MetaPattern)>, p: Pattern, upto: int) -> Option<i32>
    decreases upto,
{
    if upto <= 0 {
        None
    } else if shapes[upto - 1].1.0 == p {
        Some(shapes[upto - 1].0)
    } else {
        id_of(shapes, p, upto - 1)
    }
}

/// The id under which a pattern is recorded, 0 where it is not.
pub open spec fn known_id(shapes: Seq<(i32, MetaPattern)>, p: Pattern) -> i32 {
    match id_of(shapes, p, shapes.len() as int) {
        Some(id) => id,
        None => 0i32,
    }
}

/// The first `upto` pieces entered by origin under the ids of their
/// patterns, each entry the newest when it comes.
pub open spec fn placed(list: Seq<Piece>, shapes: Seq<(i32, MetaPattern)>, upto: int) -> Seq<
    (MetaPatternPiece, i32),
>
    decreases upto,
{
    if upto <= 0 {
        Seq::empty()
    } else {
        put(
            placed(list, shapes, upto - 1),
            (list[upto - 1].0, list[upto - 1].1),
            known_id(shapes, list[upto - 1].2),
        )
    }
}

/// Every piece is a single point `(1, 0, 0)` or has more than one cell.
pub open spec fn pieces_valid(list: Seq<Piece>) -> bool {
    forall|k: int|
        0 <= k < list.len() ==> (#[trigger] list[k]).2.0 > 1 || list[k].2 == (1i32, 0i32, 0i32)
}

/// Dropping a value leaves every other value, and nothing twice that stood
/// once.
proof fn lemma_without_value<T>(s: Seq<T>, x: T)
    ensures
        !without_value(s, x).contains(x),
        forall|y: T| y != x ==> (without_value(s, x).contains(y) <==> s.contains(y)),
        without_value(s, x).len() <= s.len(),
        s.no_duplicates() ==> without_value(s, x).no_duplicates(),
    decreases s.len(),
{
    let out = without_value(s, x);
    if s.len() > 0 {
        let front = s.drop_last();
        let sub = without_value(front, x);
        lemma_without_value(front, x);
        assert(s[s.len() - 1] == s.last());
        assert forall|y: T| y != x implies (out.contains(y) <==> s.contains(y)) by {
            if out.contains(y) {
                let j = choose|j: int| 0 <= j < out.len() && out[j] == y;
                if j < sub.len() {
                    assert(sub[j] == y);
                    assert(sub.contains(y));
                    assert(front.contains(y));
                    let i = choose|i: int| 0 <= i < front.len() && front[i] == y;
                    assert(s[i] == y);
                } else {
                    assert(s.last() != x);
                    assert(out == sub.push(s.last()));
                    assert(s[s.len() - 1] == y);
                }
            }
            if s.contains(y) {
                let i = choose|i: int| 0 <= i < s.len() && s[i] == y;
                if i < front.len() {
                    assert(front[i] == y);
                    assert(front.contains(y));
                    assert(sub.contains(y));
                    let j = choose|j: int| 0 <= j < sub.len() && sub[j] == y;
                    assert(out[j] == y);
                } else {
                    assert(s.last() == y);
                    assert(out == sub.push(s.last()));
                    assert(out[out.len() - 1] == y);
                }
            }
        }
        assert(!out.contains(x)) by {
            if out.contains(x) {
                let j = choose|j: int| 0 <= j < out.len() && out[j] == x;
                if j < sub.len() {
                    assert(sub[j] == x);
                    assert(sub.contains(x));
                }
            }
        }
        if s.no_duplicates() {
            assert(front.no_duplicates());
            assert forall|a: int, b: int| 0 <= a < b < out.len() implies out[a] != out[b] by {
                if b >= sub.len() {
                    assert(out[a] == sub[a]);
                    assert(sub.contains(sub[a]));
                    if sub[a] == s.last() {
                        assert(front.contains(s.last()));
                        let i = choose|i: int| 0 <= i < front.len() && front[i] == s.last();
                        assert(s[i] == s[s.len() - 1]);
                    }
                }
            }
        }
    }
}

/// The distinct values hold what the list holds, each once.
pub proof fn lemma_last_occurrences<T>(s: Seq<T>)
    ensures
        last_occurrences(s).no_duplicates(),
        forall|y: T| last_occurrences(s).contains(y) <==> s.contains(y),
        last_occurrences(s).len() <= s.len(),
    decreases s.len(),
{
    let out = last_occurrences(s);
    if s.len() > 0 {
        let front = s.drop_last();
        let prev = last_occurrences(front);
        let x = s.last();
        lemma_last_occurrences(front);
        lemma_without_value(prev, x);
        let base = without_value(prev, x);
        assert(s[s.len() - 1] == x);
        assert forall|a: int, b: int| 0 <= a < b < out.len() implies out[a] != out[b] by {
            if b >= base.len() {
                assert(out[a] == base[a]);
                assert(base.contains(base[a]));
            } else {
                assert(base[a] != base[b]);
            }
        }
        assert forall|y: T| out.contains(y) <==> s.contains(y) by {
            if out.contains(y) {
                let j = choose|j: int| 0 <= j < out.len() && out[j] == y;
                if j < base.len() {
                    assert(base[j] == y);
                    assert(base.contains(y));
                    assert(prev.contains(y));
                    assert(front.contains(y));
                    let i = choose|i: int| 0 <= i < front.len() && front[i] == y;
                    assert(s[i] == y);
                }
            }
            if s.contains(y) {
                if y == x {
                    assert(out[out.len() - 1] == y);
                } else {
                    let i = choose|i: int| 0 <= i < s.len() && s[i] == y;
                    assert(front[i] == y);
                    assert(front.contains(y));
                    assert(prev.contains(y));
                    assert(base.contains(y));
                    let j = choose|j: int| 0 <= j < base.len() && base[j] == y;
                    assert(out[j] == y);
                }
            }
        }
    }
}

/// The patterns of the first pieces with more than one cell: each such piece
/// finds its pattern there, and no pattern of one cell stands there.
pub proof fn lemma_long_patterns(list: Seq<Piece>, upto: int)
    requires
        0 <= upto <= list.len(),
    ensures
        long_patterns(list, upto).len() <= upto,
        forall|k: int|
            0 <= k < upto && (#[trigger] list[k]).2.0 > 1 ==> long_patterns(list, upto).contains(
                list[k].2,
            ),
        forall|j: int|
            0 <= j < long_patterns(list, upto).len() ==> (#[trigger] long_patterns(list, upto)[j]).0
                > 1,
    decreases upto,
{
    if upto > 0 {
        lemma_long_patterns(list, upto - 1);
        let prev = long_patterns(list, upto - 1);
        let out = long_patterns(list, upto);
        assert forall|k: int| 0 <= k < upto && (#[trigger] list[k]).2.0 > 1 implies out.contains(
            list[k].2,
        ) by {
            if k < upto - 1 {
                let j = choose|j: int| 0 <= j < prev.len() && prev[j] == list[k].2;
                assert(out[j] == list[k].2);
            } else {
                assert(out[out.len() - 1] == list[k].2);
            }
        }
    }
}

/// The id found for a pattern is the id of a shape with that pattern; where
/// none is found, no shape has it.
pub proof fn lemma_id_of(shapes: Seq<(i32, MetaPattern)>, p: Pattern, upto: int)
    requires
        0 <= upto <= shapes.len(),
    ensures
        id_of(shapes, p, upto) matches Some(id) ==> exists|k: int|
            0 <= k < upto && #[trigger] shapes[k] == (id, shapes[k].1) && shapes[k].1.0 == p,
        id_of(shapes, p, upto) is None ==> forall|k: int|
            0 <= k < upto ==> (#[trigger] shapes[k]).1.0 != p,
    decreases upto,
{
    if upto > 0 {
        lemma_id_of(shapes, p, upto - 1);
        if shapes[upto - 1].1.0 == p {
            assert(shapes[upto - 1] == (shapes[upto - 1].0, shapes[upto - 1].1));
        } else {
            match id_of(shapes, p, upto - 1) {
                Some(id) => {
                    let k = choose|k: int|
                        0 <= k < upto - 1 && #[trigger] shapes[k] == (id, shapes[k].1)
                            && shapes[k].1.0 == p;
                    assert(0 <= k < upto && shapes[k] == (id, shapes[k].1) && shapes[k].1.0 == p);
                },
                None => {},
            }
        }
    }
}

/// Whether the shape `id` is nested `depth` deep.
fn is_nested(shapes: &LinkedHashMap<i32, MetaPattern>, id: i32, depth: i32) -> (ok: bool)
    ensures
        ok == nested_ok(pattern_entries(*shapes), id, depth as int),
    decreases depth,
{
    if depth < 1 {
        return false;
    }
    match patterns_get(shapes, id) {
        None => false,
        Some(shape) => {
            if shape.1 != depth || shape.0.0 < 1 {
                false
            } else if depth >= 2 {
                match shape.2 {
                    None => false,
                    Some(inner) => is_nested(shapes, inner, depth - 1),
                }
            } else {
                true
            }
        },
    }
}

/// The inventory of a file: the matrix it stands for, its shapes and its
/// pieces.
pub struct SPFGen {
    pub nrows: usize,
    pub ncols: usize,
    pub nnz: usize,
    pub inc_nnz: usize,
    meta_patterns: LinkedHashMap<i32, MetaPattern>,
    meta_pattern_pieces: LinkedHashMap<MetaPatternPiece, i32>,
}

impl SPFGen {
    /// The rows, columns and nonzeros of the matrix, and the nonzeros that
    /// lie on pieces of more than one cell.
    pub closed spec fn dims(&self) -> (usize, usize, usize, usize) {
        (self.nrows, self.ncols, self.nnz, self.inc_nnz)
    }

    /// The shapes by id, oldest entry first.
    pub closed spec fn patterns(&self) -> Seq<(i32, MetaPattern)> {
        pattern_entries(self.meta_patterns)
    }

    /// The pieces by origin, oldest entry first.
    pub closed spec fn pieces(&self) -> Seq<(MetaPatternPiece, i32)> {
        piece_entries(self.meta_pattern_pieces)
    }

    /// The inventory is consistent: the shapes are, the pieces name shapes
    /// that are recorded, and the single points stand last.
    pub open spec fn wf(&self) -> bool {
        &&& shapes_ok(self.patterns())
        &&& pieces_ok(self.patterns(), self.pieces())
        &&& singles_last(self.pieces())
    }

    /// What a file of this inventory is written from.
    pub open spec fn view(&self, transpose: bool) -> FileView {
        FileView {
            nrows: self.dims().0,
            ncols: self.dims().1,
            nnz: self.dims().2,
            inc_nnz: self.dims().3,
            pats: self.patterns(),
            pieces: self.pieces(),
            transpose,
        }
    }

    /// Every origin lies inside the matrix.
    pub open spec fn placed_within(&self) -> bool {
        forall|k: int|
            0 <= k < self.pieces().len() ==> (#[trigger] self.pieces()[k]).0.0 < self.dims().0
                && self.pieces()[k].0.1 < self.dims().1
    }

    /// The inventory of a list of pieces as a search returns it. The distinct
    /// patterns of more than one cell become shapes of order one with the
    /// ids `0, 1, ...`; the single point `(1, 0, 0)` is recorded last under
    /// the id `-1`. Each piece is entered by its origin under the id of its
    /// pattern. `inc_nnz` is `nnz` less the single points of the list.
    pub fn from_piece_list(ast_list: Vec<Piece>, nrows: usize, ncols: usize, nnz: usize) -> (made:
        SPFGen)
        requires
            pieces_valid(ast_list@),
            ast_list@.len() <= i32::MAX,
            count_singles(ast_list@, ast_list@.len() as int) <= nnz,
        ensures
            made.patterns() == list_shapes(ast_list@),
            made.pieces() == placed(ast_list@, list_shapes(ast_list@), ast_list@.len() as int),
            made.dims() == (
                nrows,
                ncols,
                nnz,
                (nnz - count_singles(ast_list@, ast_list@.len() as int)) as usize,
            ),
            shapes_ok(made.patterns()),
            pieces_ok(made.patterns(), made.pieces()),
    {
        let ghost list = ast_list@;
        // the patterns of more than one cell, and the number of single points
        let mut long: Vec<Pattern> = Vec::new();
        let mut singles: usize = 0;
        let mut k: usize = 0;
        while k < ast_list.len()
            invariant
                k <= ast_list.len(),
                list == ast_list@,
                long@ == long_patterns(list, k as int),
                singles == count_singles(list, k as int),
                singles <= k,
            decreases ast_list.len() - k,
        {
            let pattern = ast_list[k].2;
            if pattern.0 > 1 {
                long.push(pattern);
            }
            if pattern.0 == 1 {
                singles += 1;
            }
            k += 1;
        }
        let inc_nnz = nnz - singles;
        let distinct = distinct_patterns(&long);
        proof {
            lemma_last_occurrences(long@);
            lemma_long_patterns(list, list.len() as int);
        }
        // the shapes
        let mut meta_patterns = patterns_new();
        let mut n: usize = 0;
        while n < distinct.len()
            invariant
                n <= distinct.len(),
                distinct@.len() <= i32::MAX,
                pattern_entries(meta_patterns) == numbered(distinct@.take(n as int)),
            decreases distinct.len() - n,
        {
            let ghost before = pattern_entries(meta_patterns);
            proof {
                assert(!has_key(before, n as i32)) by {
                    if has_key(before, n as i32) {
                        let i = choose|i: int| 0 <= i < before.len() && (#[trigger] before[i]).0 == n as i32;
                        assert(before[i].0 == i as i32);
                    }
                }
                assert(distinct_keys(before)) by {
                    assert forall|a: int, b: int| 0 <= a < b < before.len() implies (#[trigger] before[a]).0
                        != (#[trigger] before[b]).0 by {
                        assert(before[a].0 == a as i32 && before[b].0 == b as i32);
                    }
                }
                lemma_put(before, n as i32, (distinct@[n as int], 1i32, None::<i32>));
            }
            let _ = patterns_insert(&mut meta_patterns, n as i32, (distinct[n], 1, None));
            proof {
                assert(pattern_entries(meta_patterns) =~= numbered(distinct@.take(n as int + 1)));
            }
            n += 1;
        }
        proof {
            assert(distinct@.take(distinct.len() as int) == distinct@);
            let before = pattern_entries(meta_patterns);
            assert(!has_key(before, SINGLE)) by {
                if has_key(before, SINGLE) {
                    let i = choose|i: int| 0 <= i < before.len() && (#[trigger] before[i]).0 == SINGLE;
                    assert(before[i].0 == i as i32);
                }
            }
            assert(distinct_keys(before)) by {
                assert forall|a: int, b: int| 0 <= a < b < before.len() implies (#[trigger] before[a]).0
                    != (#[trigger] before[b]).0 by {
                    assert(before[a].0 == a as i32 && before[b].0 == b as i32);
                }
            }
            lemma_put(before, SINGLE, single_shape());
        }
        let _ = patterns_insert(&mut meta_patterns, SINGLE, ((1, 0, 0), 1, None));
        let ghost shapes = pattern_entries(meta_patterns);
        assert(shapes == list_shapes(list));
        proof {
            lemma_list_shapes(list);
        }
        // the pieces
        let shape_list = patterns_to_vec(&meta_patterns);
        let mut meta_pattern_pieces = pieces_new();
        let mut k: usize = 0;
        while k < ast_list.len()
            invariant
                k <= ast_list.len(),
                list == ast_list@,
                pieces_valid(list),
                list.len() <= i32::MAX,
                shapes == list_shapes(list),
                shape_list@ == shapes,
                shapes_ok(shapes),
                piece_entries(meta_pattern_pieces) == placed(list, shapes, k as int),
                pieces_ok(shapes, piece_entries(meta_pattern_pieces)),
            decreases ast_list.len() - k,
        {
            let (row, col, pattern) = ast_list[k];
            let id = find_id(&shape_list, &pattern);
            proof {
                lemma_known(list, k as int);
                let before = piece_entries(meta_pattern_pieces);
                lemma_put(before, (row, col), id);
                let after = put(before, (row, col), id);
                assert forall|m: int| 0 <= m < after.len() implies has_key(
                    shapes,
                    (#[trigger] after[m]).1,
                ) by {
                    let key = after[m].0;
                    lemma_lookup_at(after, m);
                    if key == (row, col) {
                    } else {
                        assert(has_key(after, key));
                        assert(has_key(before, key));
                        let b = choose|b: int| 0 <= b < before.len() && (#[trigger] before[b]).0 == key;
                        lemma_lookup_at(before, b);
                    }
                }
            }
            let _ = pieces_insert(&mut meta_pattern_pieces, (row, col), id);
            k += 1;
        }
        SPFGen { nrows, ncols, nnz, inc_nnz, meta_patterns, meta_pattern_pieces }
    }

    /// The inventory of shapes and pieces made elsewhere, with the single
    /// points moved behind all other pieces; among themselves the single
    /// points keep their order, and so do the others.
    pub fn from_metapatterns_list(
        meta_patterns: LinkedHashMap<i32, MetaPattern>,
        meta_pattern_pieces: LinkedHashMap<MetaPatternPiece, i32>,
        nrows: usize,
        ncols: usize,
        nnz: usize,
        inc_nnz: usize,
    ) -> (made: SPFGen)
        ensures
            made.patterns() == pattern_entries(meta_patterns),
            made.pieces() == singles_moved_last(piece_entries(meta_pattern_pieces)),
            made.dims() == (nrows, ncols, nnz, inc_nnz),
            singles_last(made.pieces()),
            distinct_keys(made.pieces()),
            pieces_ok(made.patterns(), piece_entries(meta_pattern_pieces)) ==> pieces_ok(
                made.patterns(),
                made.pieces(),
            ),
    {
        let all = pieces_to_vec(&meta_pattern_pieces);
        let mut rest: Vec<(MetaPatternPiece, i32)> = Vec::new();
        let mut ones: Vec<(MetaPatternPiece, i32)> = Vec::new();
        let mut k: usize = 0;
        while k < all.len()
            invariant
                k <= all.len(),
                rest@ == select(all@.take(k as int), false),
                ones@ == select(all@.take(k as int), true),
            decreases all.len() - k,
        {
            let entry = all[k];
            proof {
                assert(all@.take(k as int + 1).drop_last() == all@.take(k as int));
                assert(all@.take(k as int + 1).last() == entry);
            }
            if entry.1 == SINGLE {
                ones.push(entry);
            } else {
                rest.push(entry);
            }
            k += 1;
        }
        proof {
            assert(all@.take(all.len() as int) == all@);
            lemma_singles_moved_last(pattern_entries(meta_patterns), all@);
        }
        rest.append(&mut ones);
        let pieces = pieces_from(&rest);
        SPFGen { nrows, ncols, nnz, inc_nnz, meta_patterns, meta_pattern_pieces: pieces }
    }

    /// The shape record of every piece with the id of its shape, in the
    /// order of the pieces.
    pub fn get_uwc_list(&self) -> (list: Vec<(Uwc, i32)>)
        requires
            shapes_ok(self.patterns()),
            pieces_ok(self.patterns(), self.pieces()),
        ensures
            list@.len() == self.pieces().len(),
            forall|k: int|
                0 <= k < list@.len() ==> (#[trigger] list@[k]).1 == self.pieces()[k].1 && uwc_of(
                    list@[k].0,
                    self.patterns(),
                    self.pieces()[k].1,
                ),
    {
        let entries = pieces_to_vec(&self.meta_pattern_pieces);
        let mut list: Vec<(Uwc, i32)> = Vec::new();
        let mut k: usize = 0;
        while k < entries.len()
            invariant
                k <= entries.len(),
                entries@ == self.pieces(),
                shapes_ok(self.patterns()),
                pieces_ok(self.patterns(), self.pieces()),
                list@.len() == k,
                forall|m: int|
                    0 <= m < k ==> (#[trigger] list@[m]).1 == self.pieces()[m].1 && uwc_of(
                        list@[m].0,
                        self.patterns(),
                        self.pieces()[m].1,
                    ),
            decreases entries.len() - k,
        {
            let (_, id) = entries[k];
            proof {
                lemma_shape_known(self.patterns(), id);
            }
            let uwc = metapattern_to_hyperrectangle_uwc(id, &self.meta_patterns);
            list.push((uwc, id));
            k += 1;
        }
        list
    }

    /// The shape record of every shape on record with its id, in the order
    /// of the shapes.
    pub fn get_distinct_uwc_list(&self) -> (list: Vec<(Uwc, i32)>)
        requires
            shapes_ok(self.patterns()),
        ensures
            list@.len() == self.patterns().len(),
            forall|k: int|
                0 <= k < list@.len() ==> (#[trigger] list@[k]).1 == self.patterns()[k].0 && uwc_of(
                    list@[k].0,
                    self.patterns(),
                    self.patterns()[k].0,
                ),
    {
        let entries = patterns_to_vec(&self.meta_patterns);
        let mut list: Vec<(Uwc, i32)> = Vec::new();
        let mut k: usize = 0;
        while k < entries.len()
            invariant
                k <= entries.len(),
                entries@ == self.patterns(),
                shapes_ok(self.patterns()),
                list@.len() == k,
                forall|m: int|
                    0 <= m < k ==> (#[trigger] list@[m]).1 == self.patterns()[m].0 && uwc_of(
                        list@[m].0,
                        self.patterns(),
                        self.patterns()[m].0,
                    ),
            decreases entries.len() - k,
        {
            let (id, _) = entries[k];
            proof {
                assert(has_key(self.patterns(), self.patterns()[k as int].0));
                lemma_shape_known(self.patterns(), id);
            }
            let uwc = metapattern_to_hyperrectangle_uwc(id, &self.meta_patterns);
            list.push((uwc, id));
            k += 1;
        }
        list
    }

    /// Whether the inventory can be handed to the writer: it is consistent
    /// and every origin lies inside the matrix.
    pub fn ready(&self) -> (ok: bool)
        ensures
            ok == (self.wf() && self.placed_within()),
    {
        let shapes = patterns_to_vec(&self.meta_patterns);
        let entries = pieces_to_vec(&self.meta_pattern_pieces);
        let mut k: usize = 0;
        while k < shapes.len()
            invariant
                k <= shapes@.len(),
                shapes@ == self.patterns(),
                forall|m: int|
                    0 <= m < k ==> nested_ok(
                        self.patterns(),
                        (#[trigger] self.patterns()[m]).0,
                        self.patterns()[m].1.1 as int,
                    ),
            decreases shapes.len() - k,
        {
            if !is_nested(&self.meta_patterns, shapes[k].0, shapes[k].1.1) {
                return false;
            }
            k += 1;
        }
        let mut seen_single = false;
        let mut k: usize = 0;
        while k < entries.len()
            invariant
                k <= entries@.len(),
                entries@ == self.pieces(),
                distinct_keys(entries@),
                shapes_ok(self.patterns()),
                seen_single ==> k > 0 && entries@[k - 1].1 == SINGLE,
                forall|m: int| 0 <= m < k ==> has_key(self.patterns(), (#[trigger] entries@[m]).1),
                forall|m: int|
                    0 <= m < k ==> (#[trigger] entries@[m]).0.0 < self.dims().0 && entries@[m].0.1
                        < self.dims().1,
                forall|a: int, b: int|
                    0 <= a < b < k && (#[trigger] entries@[a]).1 == SINGLE ==> (#[trigger] entries@[b]).1
                        == SINGLE,
                !seen_single ==> forall|m: int| 0 <= m < k ==> (#[trigger] entries@[m]).1 != SINGLE,
            decreases entries.len() - k,
        {
            let ((row, col), id) = entries[k];
            if patterns_get(&self.meta_patterns, id).is_none() {
                return false;
            }
            if row >= self.nrows || col >= self.ncols {
                return false;
            }
            if seen_single && id != SINGLE {
                return false;
            }
            if id == SINGLE {
                seen_single = true;
            }
            k += 1;
        }
        true
    }

    /// The number of rows of the matrix.
    pub fn nrows(&self) -> (n: usize)
        ensures
            n == self.dims().0,
    {
        self.nrows
    }

    /// The number of columns of the matrix.
    pub fn ncols(&self) -> (n: usize)
        ensures
            n == self.dims().1,
    {
        self.ncols
    }

    /// The number of nonzeros of the matrix.
    pub fn nnz(&self) -> (n: usize)
        ensures
            n == self.dims().2,
    {
        self.nnz
    }

    /// The number of nonzeros that lie on pieces of more than one cell.
    pub fn inc_nnz(&self) -> (n: usize)
        ensures
            n == self.dims().3,
    {
        self.inc_nnz
    }

    /// The shape record of every piece with its origin and the id of its
    /// shape, in the order of the pieces.
    pub fn get_orig_uwc_list(&self) -> (list: Vec<(OriginUwc, i32)>)
        requires
            shapes_ok(self.patterns()),
            pieces_ok(self.patterns(), self.pieces()),
        ensures
            list@.len() == self.pieces().len(),
            forall|k: int|
                0 <= k < list@.len() ==> {
                    &&& (#[trigger] list@[k]).1 == self.pieces()[k].1
                    &&& (list@[k].0.0, list@[k].0.1) == self.pieces()[k].0
                    &&& uwc_of(list@[k].0.2, self.patterns(), self.pieces()[k].1)
                },
    {
        let entries = pieces_to_vec(&self.meta_pattern_pieces);
        let mut list: Vec<(OriginUwc, i32)> = Vec::new();
        let mut k: usize = 0;
        while k < entries.len()
            invariant
                k <= entries.len(),
                entries@ == self.pieces(),
                shapes_ok(self.patterns()),
                pieces_ok(self.patterns(), self.pieces()),
                list@.len() == k,
                forall|m: int|
                    0 <= m < k ==> {
                        &&& (#[trigger] list@[m]).1 == self.pieces()[m].1
                        &&& (list@[m].0.0, list@[m].0.1) == self.pieces()[m].0
                        &&& uwc_of(list@[m].0.2, self.patterns(), self.pieces()[m].1)
                    },
            decreases entries.len() - k,
        {
            let ((row, col), id) = entries[k];
            proof {
                lemma_shape_known(self.patterns(), id);
            }
            let uwc = metapattern_to_hyperrectangle_uwc(id, &self.meta_patterns);
            list.push(((row, col, uwc), id));
            k += 1;
        }
        list
    }
}

/// The id of the last shape whose outermost axis is the pattern, 0 where
/// there is none.
fn find_id(shapes: &Vec<(i32, MetaPattern)>, pattern: &Pattern) -> (id: i32)
    ensures
        id == known_id(shapes@, *pattern),
{
    let mut id: i32 = 0;
    let mut k: usize = 0;
    while k < shapes.len()
        invariant
            k <= shapes.len(),
            id == match id_of(shapes@, *pattern, k as int) {
                Some(found) => found,
                None => 0i32,
            },
        decreases shapes.len() - k,
    {
        let (key, shape) = shapes[k];
        if shape.0.0 == pattern.0 && shape.0.1 == pattern.1 && shape.0.2 == pattern.2 {
            id = key;
        }
        k += 1;
    }
    id
}

/// The shapes of a list of valid pieces are consistent, and the pattern of
/// every piece is recorded among them.
pub proof fn lemma_list_shapes(list: Seq<Piece>)
    requires
        pieces_valid(list),
        list.len() <= i32::MAX,
    ensures
        shapes_ok(list_shapes(list)),
        forall|k: int|
            0 <= k < list.len() ==> has_key(
                list_shapes(list),
                known_id(list_shapes(list), (#[trigger] list[k]).2),
            ),
{
    let long = long_patterns(list, list.len() as int);
    let distinct = last_occurrences(long);
    let shapes = list_shapes(list);
    lemma_last_occurrences(long);
    lemma_long_patterns(list, list.len() as int);
    let d = distinct.len() as int;
    assert(shapes.len() == d + 1);
    assert forall|a: int| 0 <= a < d implies (#[trigger] shapes[a]) == (
        a as i32,
        (distinct[a], 1i32, None::<i32>),
    ) && distinct[a].0 > 1 by {
        assert(distinct.contains(distinct[a]));
        assert(long.contains(distinct[a]));
        let j = choose|j: int| 0 <= j < long.len() && long[j] == distinct[a];
        assert(long[j].0 > 1);
    }
    assert(shapes[d] == (SINGLE, single_shape()));
    assert(distinct_keys(shapes)) by {
        assert forall|a: int, b: int| 0 <= a < b < shapes.len() implies (#[trigger] shapes[a]).0
            != (#[trigger] shapes[b]).0 by {
            assert(shapes[a].0 == a as i32);
            if b < d {
                assert(shapes[b].0 == b as i32);
            }
        }
    }
    assert forall|k: int| 0 <= k < shapes.len() implies nested_ok(
        shapes,
        (#[trigger] shapes[k]).0,
        shapes[k].1.1 as int,
    ) by {
        lemma_lookup_at(shapes, k);
        if k < d {
            assert(shapes[k] == (k as i32, (distinct[k], 1i32, None::<i32>)));
        }
    }
    assert forall|k: int| 0 <= k < list.len() implies has_key(
        shapes,
        known_id(shapes, (#[trigger] list[k]).2),
    ) by {
        let p = list[k].2;
        lemma_id_of(shapes, p, shapes.len() as int);
        if id_of(shapes, p, shapes.len() as int) is None {
            if p.0 > 1 {
                assert(long.contains(p));
                assert(distinct.contains(p));
                let a = choose|a: int| 0 <= a < distinct.len() && distinct[a] == p;
                assert(shapes[a].1.0 == p);
            } else {
                assert(shapes[d].1.0 == p);
            }
        } else {
            let id = id_of(shapes, p, shapes.len() as int).unwrap();
            let m = choose|m: int|
                0 <= m < shapes.len() && #[trigger] shapes[m] == (id, shapes[m].1) && shapes[m].1.0
                    == p;
            assert(shapes[m].0 == id);
        }
    }
}

/// Every piece of a valid list finds the id of its pattern among the shapes
/// of the list.
proof fn lemma_known(list: Seq<Piece>, k: int)
    requires
        pieces_valid(list),
        list.len() <= i32::MAX,
        0 <= k < list.len(),
    ensures
        has_key(list_shapes(list), known_id(list_shapes(list), list[k].2)),
{
    lemma_list_shapes(list);
}

/// A shape that is recorded in a consistent inventory is nested as deep as
/// its order says.
pub proof fn lemma_shape_known(pats: Seq<(i32, MetaPattern)>, id: i32)
    requires
        shapes_ok(pats),
        has_key(pats, id),
    ensures
        lookup(pats, id) is Some,
        nested_ok(pats, id, order_of(pats, id)),
        order_of(pats, id) >= 1,
{
    let k = choose|k: int| 0 <= k < pats.len() && (#[trigger] pats[k]).0 == id;
    lemma_lookup_at(pats, k);
}

/// What is selected is a part of the pieces, in order, with distinct
/// origins.
proof fn lemma_select(pieces: Seq<(MetaPatternPiece, i32)>, singles: bool)
    requires
        distinct_keys(pieces),
    ensures
        distinct_keys(select(pieces, singles)),
        select(pieces, singles).len() <= pieces.len(),
        forall|j: int|
            0 <= j < select(pieces, singles).len() ==> ((#[trigger] select(pieces, singles)[j]).1
                == SINGLE) == singles && pieces.contains(select(pieces, singles)[j]),
        forall|i: int|
            0 <= i < pieces.len() && ((#[trigger] pieces[i]).1 == SINGLE) == singles ==> select(
                pieces,
                singles,
            ).contains(pieces[i]),
    decreases pieces.len(),
{
    let out = select(pieces, singles);
    if pieces.len() > 0 {
        let front = pieces.drop_last();
        let sub = select(front, singles);
        assert(distinct_keys(front)) by {
            assert forall|a: int, b: int| 0 <= a < b < front.len() implies (#[trigger] front[a]).0
                != (#[trigger] front[b]).0 by {
                assert(pieces[a].0 != pieces[b].0);
            }
        }
        lemma_select(front, singles);
        let last = pieces.last();
        assert(pieces[pieces.len() - 1] == last);
        assert forall|j: int| 0 <= j < out.len() implies ((#[trigger] out[j]).1 == SINGLE)
            == singles && pieces.contains(out[j]) by {
            if j < sub.len() {
                assert(out[j] == sub[j]);
                assert(front.contains(sub[j]));
                let i = choose|i: int| 0 <= i < front.len() && front[i] == sub[j];
                assert(pieces[i] == out[j]);
            } else {
                assert(out[j] == last);
            }
        }
        assert forall|i: int|
            0 <= i < pieces.len() && ((#[trigger] pieces[i]).1 == SINGLE)
                == singles implies out.contains(pieces[i]) by {
            if i < front.len() {
                assert(front[i] == pieces[i]);
                assert(sub.contains(front[i]));
                let j = choose|j: int| 0 <= j < sub.len() && sub[j] == front[i];
                assert(out[j] == pieces[i]);
            } else {
                assert(out[out.len() - 1] == pieces[i]);
            }
        }
        assert forall|a: int, b: int| 0 <= a < b < out.len() implies (#[trigger] out[a]).0
            != (#[trigger] out[b]).0 by {
            if b < sub.len() {
                assert(sub[a].0 != sub[b].0);
            } else {
                assert(out[a] == sub[a]);
                assert(front.contains(sub[a]));
                let i = choose|i: int| 0 <= i < front.len() && front[i] == sub[a];
                assert(pieces[i].0 != pieces[pieces.len() - 1].0);
            }
        }
    }
}

/// The pieces with the single points moved behind the others.
pub open spec fn singles_moved_last(pieces: Seq<(MetaPatternPiece, i32)>) -> Seq<
    (MetaPatternPiece, i32),
> {
    select(pieces, false) + select(pieces, true)
}

/// Moving the single points last keeps the pieces, with distinct origins.
pub proof fn lemma_singles_moved_last(pats: Seq<(i32, MetaPattern)>, pieces: Seq<(MetaPatternPiece, i32)>)
    requires
        distinct_keys(pieces),
    ensures
        distinct_keys(singles_moved_last(pieces)),
        singles_last(singles_moved_last(pieces)),
        forall|e: (MetaPatternPiece, i32)|
            singles_moved_last(pieces).contains(e) <==> pieces.contains(e),
        pieces_ok(pats, pieces) ==> pieces_ok(pats, singles_moved_last(pieces)),
{
    let rest = select(pieces, false);
    let ones = select(pieces, true);
    let out = singles_moved_last(pieces);
    lemma_select(pieces, false);
    lemma_select(pieces, true);
    assert forall|j: int| 0 <= j < out.len() implies pieces.contains(#[trigger] out[j]) && ((out[j].1
        == SINGLE) <==> j >= rest.len()) by {
        if j < rest.len() {
            assert(out[j] == rest[j]);
        } else {
            assert(out[j] == ones[j - rest.len()]);
        }
    }
    assert forall|a: int, b: int| 0 <= a < b < out.len() implies (#[trigger] out[a]).0
        != (#[trigger] out[b]).0 by {
        if b < rest.len() {
            assert(rest[a].0 != rest[b].0);
        } else if a >= rest.len() {
            assert(ones[a - rest.len()].0 != ones[b - rest.len()].0);
        } else {
            let i = choose|i: int| 0 <= i < pieces.len() && pieces[i] == out[a];
            let j = choose|j: int| 0 <= j < pieces.len() && pieces[j] == out[b];
            if i < j {
                assert(pieces[i].0 != pieces[j].0);
            }
            if j < i {
                assert(pieces[j].0 != pieces[i].0);
            }
        }
    }
    assert forall|e: (MetaPatternPiece, i32)| out.contains(e) <==> pieces.contains(e) by {
        if out.contains(e) {
            let j = choose|j: int| 0 <= j < out.len() && out[j] == e;
            assert(pieces.contains(out[j]));
        }
        if pieces.contains(e) {
            let i = choose|i: int| 0 <= i < pieces.len() && pieces[i] == e;
            if e.1 == SINGLE {
                assert(ones.contains(pieces[i]));
                let j = choose|j: int| 0 <= j < ones.len() && ones[j] == e;
                assert(out[rest.len() + j] == e);
            } else {
                assert(rest.contains(pieces[i]));
                let j = choose|j: int| 0 <= j < rest.len() && rest[j] == e;
                assert(out[j] == e);
            }
        }
    }
    if pieces_ok(pats, pieces) {
        assert forall|k: int| 0 <= k < out.len() implies has_key(pats, (#[trigger] out[k]).1) by {
            let i = choose|i: int| 0 <= i < pieces.len() && pieces[i] == out[k];
            assert(has_key(pats, pieces[i].1));
        }
    }
}

/// A map that holds the entries, in their order.
fn pieces_from(entries: &Vec<(MetaPatternPiece, i32)>) -> (m: LinkedHashMap<MetaPatternPiece, i32>)
    requires
        distinct_keys(entries@),
    ensures
        piece_entries(m) == entries@,
{
    let mut m = pieces_new();
    let mut k: usize = 0;
    while k < entries.len()
        invariant
            k <= entries.len(),
            distinct_keys(entries@),
            piece_entries(m) == entries@.take(k as int),
        decreases entries.len() - k,
    {
        let (origin, id) = entries[k];
        proof {
            let before = piece_entries(m);
            assert(!has_key(before, origin)) by {
                if has_key(before, origin) {
                    let i = choose|i: int| 0 <= i < before.len() && (#[trigger] before[i]).0 == origin;
                    assert(entries@[i].0 != entries@[k as int].0);
                }
            }
            assert(distinct_keys(before)) by {
                assert forall|a: int, b: int| 0 <= a < b < before.len() implies (#[trigger] before[a]).0
                    != (#[trigger] before[b]).0 by {
                    assert(entries@[a].0 != entries@[b].0);
                }
            }
            lemma_put(before, origin, id);
            assert(entries@.take(k as int + 1) == entries@.take(k as int).push((origin, id)));
        }
        let _ = pieces_insert(&mut m, origin, id);
        k += 1;
    }
    proof {
        assert(entries@.take(entries.len() as int) == entries@);
    }
    m
}

/// The shape record is the one of the nested shape `id`.
pub open spec fn uwc_of(uwc: Uwc, pats: Seq<(i32, MetaPattern)>, id: i32) -> bool {
    &&& rows_view(uwc.0@) == hyperrect_u(order_of(pats, id))
    &&& uwc.1@ == hyperrect_w(axes(pats, id, order_of(pats, id)))
    &&& uwc.2@ == lattice(axes(pats, id, order_of(pats, id)))
}

/// Appends the fields of a list.
fn put_i32_list(buf: &mut Vec<u8>, vals: &Vec<i32>)
    ensures
        final(buf)@ == old(buf)@ + i32_fields(vals@),
{
    let mut k: usize = 0;
    assert(buf@ =~= old(buf)@ + i32_fields(vals@.take(0)));
    while k < vals.len()
        invariant
            k <= vals.len(),
            buf@ == old(buf)@ + i32_fields(vals@.take(k as int)),
        decreases vals.len() - k,
    {
        put_i32(buf, vals[k]);
        proof {
            lemma_i32_fields_push(vals@.take(k as int), vals@[k as int]);
            assert(vals@.take(k as int + 1) == vals@.take(k as int).push(vals@[k as int]));
            assert(buf@ =~= old(buf)@ + i32_fields(vals@.take(k as int + 1)));
        }
        k += 1;
    }
    proof {
        assert(vals@.take(vals.len() as int) == vals@);
    }
}

/// Appends `n` fields of the same value.
fn put_repeated(buf: &mut Vec<u8>, v: i32, n: usize)
    ensures
        final(buf)@ == old(buf)@ + i32_fields(repeated(v, n as int)),
{
    let mut k: usize = 0;
    assert(buf@ =~= old(buf)@ + i32_fields(repeated(v, 0)));
    while k < n
        invariant
            k <= n,
            buf@ == old(buf)@ + i32_fields(repeated(v, k as int)),
        decreases n - k,
    {
        put_i32(buf, v);
        proof {
            lemma_i32_fields_push(repeated(v, k as int), v);
            assert(repeated(v, k as int + 1) =~= repeated(v, k as int).push(v));
            assert(buf@ =~= old(buf)@ + i32_fields(repeated(v, k as int + 1)));
        }
        k += 1;
    }
}

/// The ids with their places: the id at place `k` with `k`.
pub open spec fn ranks_of(ids: Seq<i32>) -> Seq<(i32, usize)> {
    Seq::new(ids.len(), |k: int| (ids[k], k as usize))
}

/// The places of the ids in use, by id.
fn reorder_map(ids: &Vec<i32>) -> (reorder: LinkedHashMap<i32, usize>)
    requires
        ids@.no_duplicates(),
    ensures
        rank_entries(reorder) == ranks_of(ids@),
{
    let mut pairs: Vec<(i32, usize)> = Vec::new();
    let mut k: usize = 0;
    while k < ids.len()
        invariant
            k <= ids@.len(),
            pairs@.len() == k,
            forall|m: int| 0 <= m < k ==> pairs@[m] == (ids@[m], m as usize),
        decreases ids.len() - k,
    {
        pairs.push((ids[k], k));
        k += 1;
    }
    proof {
        assert(pairs@ =~= ranks_of(ids@));
        assert forall|a: int, b: int| 0 <= a < b < pairs@.len() implies (#[trigger] pairs@[a]).0
            != (#[trigger] pairs@[b]).0 by {
            assert(ids@[a] != ids@[b]);
        }
    }
    ranks_collect(&pairs)
}

/// The place of an id among the ids in use.
fn rank_in(reorder: &LinkedHashMap<i32, usize>, ids: Ghost<Seq<i32>>, id: i32) -> (place: Option<usize>)
    requires
        ids@.no_duplicates(),
        ids@.len() <= usize::MAX,
        rank_entries(*reorder) == ranks_of(ids@),
    ensures
        match place {
            Some(r) => r < ids@.len() && ids@[r as int] == id,
            None => !ids@.contains(id),
        },
{
    let place = ranks_get(reorder, id);
    proof {
        let pairs = ranks_of(ids@);
        assert forall|a: int, b: int| 0 <= a < b < pairs.len() implies (#[trigger] pairs[a]).0
            != (#[trigger] pairs[b]).0 by {
            assert(ids@[a] != ids@[b]);
        }
        if has_key(pairs, id) {
            let k = choose|k: int| 0 <= k < pairs.len() && (#[trigger] pairs[k]).0 == id;
            lemma_lookup_at(pairs, k);
            assert(pairs[k] == (ids@[k], k as usize));
        } else if ids@.contains(id) {
            let k = choose|k: int| 0 <= k < ids@.len() && ids@[k] == id;
            assert(pairs[k].0 == id);
        }
    }
    place
}

/// The place of an id in a list.
fn find_rank(ids: &Vec<i32>, id: i32) -> (place: Option<usize>)
    ensures
        match place {
            Some(r) => r < ids@.len() && ids@[r as int] == id,
            None => !ids@.contains(id),
        },
{
    let mut k: usize = 0;
    while k < ids.len()
        invariant
            k <= ids.len(),
            forall|m: int| 0 <= m < k ==> ids@[m] != id,
        decreases ids.len() - k,
    {
        if ids[k] == id {
            return Some(k);
        }
        k += 1;
    }
    None
}

/// The ids in use are distinct, none is that of the single points, and
/// every piece that is no single point has its id among them.
pub proof fn lemma_first_ids(pieces: Seq<(MetaPatternPiece, i32)>, upto: int)
    requires
        0 <= upto <= pieces.len(),
    ensures
        first_ids(pieces, upto).no_duplicates(),
        first_ids(pieces, upto).len() <= upto,
        !first_ids(pieces, upto).contains(SINGLE),
        forall|k: int|
            0 <= k < upto && (#[trigger] pieces[k]).1 != SINGLE ==> first_ids(pieces, upto).contains(
                pieces[k].1,
            ),
        forall|j: int|
            0 <= j < first_ids(pieces, upto).len() ==> exists|k: int|
                0 <= k < upto && (#[trigger] pieces[k]).1 == #[trigger] first_ids(pieces, upto)[j],
    decreases upto,
{
    if upto > 0 {
        lemma_first_ids(pieces, upto - 1);
        let before = first_ids(pieces, upto - 1);
        let out = first_ids(pieces, upto);
        let id = pieces[upto - 1].1;
        assert forall|k: int| 0 <= k < upto && (#[trigger] pieces[k]).1 != SINGLE implies out.contains(
            pieces[k].1,
        ) by {
            if k < upto - 1 {
                let j = choose|j: int| 0 <= j < before.len() && before[j] == pieces[k].1;
                assert(out[j] == pieces[k].1);
            } else if before.contains(id) {
            } else {
                assert(out[out.len() - 1] == id);
            }
        }
        assert forall|j: int| 0 <= j < out.len() implies exists|k: int|
            0 <= k < upto && (#[trigger] pieces[k]).1 == #[trigger] out[j] by {
            if j < before.len() {
                let k = choose|k: int| 0 <= k < upto - 1 && (#[trigger] pieces[k]).1 == before[j];
                assert(pieces[k].1 == out[j]);
            } else {
                assert(pieces[upto - 1].1 == out[j]);
            }
        }
        if !(id == SINGLE || before.contains(id)) {
            assert(!out.contains(SINGLE)) by {
                if out.contains(SINGLE) {
                    let j = choose|j: int| 0 <= j < out.len() && out[j] == SINGLE;
                    if j < before.len() {
                        assert(before[j] == SINGLE);
                    }
                }
            }
            assert forall|a: int, b: int| 0 <= a < b < out.len() implies out[a] != out[b] by {
                if b == out.len() - 1 {
                    assert(before[a] == out[a]);
                }
            }
        }
    }
}

/// The ids of the shapes in use, each once, in the order in which the
/// pieces first name them.
fn ids_in_use(entries: &Vec<(MetaPatternPiece, i32)>) -> (ids: Vec<i32>)
    ensures
        ids@ == first_ids(entries@, entries@.len() as int),
{
    let mut ids: Vec<i32> = Vec::new();
    let mut k: usize = 0;
    while k < entries.len()
        invariant
            k <= entries.len(),
            ids@ == first_ids(entries@, k as int),
        decreases entries.len() - k,
    {
        let id = entries[k].1;
        if id != SINGLE {
            match find_rank(&ids, id) {
                Some(_) => {},
                None => {
                    ids.push(id);
                },
            }
        }
        k += 1;
    }
    ids
}

/// In a list without repetitions the place of a value is its rank.
pub proof fn lemma_rank(ids: Seq<i32>, r: int)
    requires
        ids.no_duplicates(),
        0 <= r < ids.len(),
    ensures
        rank(ids, ids[r]) == r,
{
    let k = choose|k: int| 0 <= k < ids.len() && ids[k] == ids[r];
    if k != r {
        assert(ids[k] != ids[r]);
    }
}

/// The number of cells of a shape, computed from the offsets of its record,
/// as long as it stays within 32 bits.
fn cells_of_record(w: &Vec<i32>, d: usize, Ghost(ax): Ghost<Seq<Pattern>>) -> (size: Option<i32>)
    requires
        ax.len() == d,
        w@.len() >= d,
        forall|k: int| 0 <= k < d ==> (#[trigger] ax[k]).0 >= 1 && w@[k] == ax[k].0 - 1,
    ensures
        match size {
            Some(n) => n == shape_size(ax),
            None => shape_size(ax) > i32::MAX,
        },
{
    let mut acc: i64 = 1;
    let mut k: usize = d;
    proof {
        assert(ax.skip(d as int).len() == 0);
        lemma_size_of_part(ax, 0, d as int);
    }
    while k > 0
        invariant
            k <= d,
            ax.len() == d,
            w@.len() >= d,
            forall|m: int| 0 <= m < d ==> (#[trigger] ax[m]).0 >= 1 && w@[m] == ax[m].0 - 1,
            acc == shape_size(ax.skip(k as int)),
            1 <= acc <= i32::MAX,
        decreases k,
    {
        k -= 1;
        let n: i64 = w[k] as i64 + 1;
        proof {
            assert(ax.skip(k as int)[0] == ax[k as int]);
            assert(ax.skip(k as int).skip(1) == ax.skip(k as int + 1));
            assert(n * acc == shape_size(ax.skip(k as int)));
            assert(1 <= n * acc <= 0x8000_0000 * 0x8000_0000) by (nonlinear_arith)
                requires
                    1 <= n <= 0x8000_0000,
                    1 <= acc <= 0x8000_0000,
            ;
        }
        let next = n * acc;
        if next > i32::MAX as i64 {
            proof {
                lemma_size_of_part(ax, 0, k as int);
                assert(ax.skip(0) == ax);
            }
            return None;
        }
        acc = next;
    }
    proof {
        assert(ax.skip(0) == ax);
    }
    Some(acc as i32)
}

/// A shape has at least as many cells as each of its inner shapes.
proof fn lemma_size_of_part(ax: Seq<Pattern>, from: int, to: int)
    requires
        0 <= from <= to <= ax.len(),
        forall|k: int| 0 <= k < ax.len() ==> (#[trigger] ax[k]).0 >= 1,
    ensures
        1 <= shape_size(ax.skip(to)) <= shape_size(ax.skip(from)),
    decreases to - from,
{
    assert forall|k: int| 0 <= k < ax.skip(to).len() implies (#[trigger] ax.skip(to)[k]).0 >= 1 by {
        assert(ax[to + k].0 >= 1);
    }
    lemma_shape_size(ax.skip(to), 0, 0);
    if from < to {
        lemma_size_of_part(ax, from + 1, to);
        assert(ax.skip(from)[0] == ax[from]);
        assert(ax.skip(from).skip(1) == ax.skip(from + 1));
        let inner = shape_size(ax.skip(from + 1));
        assert(ax[from].0 * inner >= inner) by (nonlinear_arith)
            requires
                ax[from].0 >= 1,
                inner >= 1,
        ;
    }
}

/// Where the grid holds all cells of the first repetitions of an axis, it
/// holds those of fewer repetitions.
proof fn lemma_axis_has_all(
    ax: Seq<Pattern>,
    row: int,
    col: int,
    upto: int,
    n: int,
    grid: Seq<(usize, usize, u64)>,
)
    requires
        0 <= upto <= n,
        ax.len() > 0,
        has_all(axis_cells(ax, row, col, n), grid),
    ensures
        has_all(axis_cells(ax, row, col, upto), grid),
    decreases n - upto,
{
    if upto < n {
        let prev = axis_cells(ax, row, col, n - 1);
        let whole = axis_cells(ax, row, col, n);
        assert forall|k: int| 0 <= k < prev.len() implies has_entry(
            grid,
            (#[trigger] prev[k]).0,
            prev[k].1,
        ) by {
            assert(whole[k] == prev[k]);
        }
        lemma_axis_has_all(ax, row, col, upto, n - 1, grid);
    }
}

/// The bound that keeps the coordinates of nested origins within 128 bits.
pub open spec fn in_reach(v: int, depth: int) -> bool {
    -0x10_0000_0000_0000_0000_0000_0000 + depth * 0x8000_0000_0000_0000 <= v
        <= 0x10_0000_0000_0000_0000_0000_0000 - depth * 0x8000_0000_0000_0000
}

/// Appends the values of the cells of the shape `id` placed at
/// `(row, col)`, the outermost axis varying slowest, by descending the chain
/// of its inner shapes. Reports whether the grid held a value for every
/// cell; where it did not, what was appended is of no use.
fn traverse(
    row: i128,
    col: i128,
    id: i32,
    meta_patterns: &LinkedHashMap<i32, MetaPattern>,
    values: &ValueGrid,
    out: &mut Vec<u64>,
) -> (ok: bool)
    requires
        nested_ok(pattern_entries(*meta_patterns), id, order_of(pattern_entries(*meta_patterns), id)),
        row_major_sorted(values.cells()),
        in_reach(row as int, order_of(pattern_entries(*meta_patterns), id)),
        in_reach(col as int, order_of(pattern_entries(*meta_patterns), id)),
    ensures
        ok == has_all(
            shape_cells(
                axes(
                    pattern_entries(*meta_patterns),
                    id,
                    order_of(pattern_entries(*meta_patterns), id),
                ),
                row as int,
                col as int,
            ),
            values.cells(),
        ),
        ok ==> final(out)@ == old(out)@ + values_of(
            shape_cells(
                axes(
                    pattern_entries(*meta_patterns),
                    id,
                    order_of(pattern_entries(*meta_patterns), id),
                ),
                row as int,
                col as int,
            ),
            values.cells(),
        ),
    decreases order_of(pattern_entries(*meta_patterns), id),
{
    let ghost pats = pattern_entries(*meta_patterns);
    let ghost depth = order_of(pats, id);
    let ghost ax = axes(pats, id, depth);
    let ghost grid = values.cells();
    let found = patterns_get(meta_patterns, id);
    let ((n, i, j), order, subpat) = match found {
        Some(shape) => shape,
        None => ((0, 0, 0), 0, None),
    };
    let sub: i32 = match subpat {
        Some(s) => s,
        None => 0,
    };
    proof {
        lemma_axes(pats, id, depth);
        assert(ax[0] == (n, i, j));
        assert(ax.skip(1) =~= axes(pats, sub, depth - 1)) by {
            let rest = axes(pats, sub, depth - 1);
            assert(ax == seq![(n, i, j)] + rest);
            assert(rest.len() == depth - 1) by {
                assert((seq![(n, i, j)] + rest).len() == 1 + rest.len());
            }
            assert forall|k: int| 0 <= k < rest.len() implies ax.skip(1)[k] == rest[k] by {
                assert(ax[k + 1] == rest[k]);
            }
        }
        assert(axis_cells(ax, row as int, col as int, 0) =~= Seq::<(int, int)>::empty());
        assert(out@ =~= old(out)@ + values_of(axis_cells(ax, row as int, col as int, 0), grid));
    }
    let mut k: i32 = 0;
    while k < n
        invariant
            0 <= k <= n,
            pats == pattern_entries(*meta_patterns),
            depth == order_of(pats, id),
            depth == order,
            depth >= 1,
            ax == axes(pats, id, depth),
            ax.len() == depth,
            ax[0] == (n, i, j),
            ax.skip(1) == axes(pats, sub, depth - 1),
            depth >= 2 ==> nested_ok(pats, sub, depth - 1) && order_of(pats, sub) == depth - 1,
            grid == values.cells(),
            row_major_sorted(values.cells()),
            in_reach(row as int, depth),
            in_reach(col as int, depth),
            has_all(axis_cells(ax, row as int, col as int, k as int), grid),
            out@ == old(out)@ + values_of(axis_cells(ax, row as int, col as int, k as int), grid),
        decreases n - k,
    {
        proof {
            lemma_step_bound(k as int, i as int);
            lemma_step_bound(k as int, j as int);
        }
        let r: i128 = row + (k as i128) * (i as i128);
        let c: i128 = col + (k as i128) * (j as i128);
        let ghost before = axis_cells(ax, row as int, col as int, k as int);
        let ghost block = shape_cells(ax.skip(1), r as int, c as int);
        let ghost after = axis_cells(ax, row as int, col as int, k as int + 1);
        proof {
            assert(after == before + block);
        }
        let ghost mark = out@;
        let ok = if order < 2 {
            proof {
                assert(ax.skip(1).len() == 0);
                assert(block == seq![(r as int, c as int)]);
            }
            if r < 0 || c < 0 || r > usize::MAX as i128 || c > usize::MAX as i128 {
                proof {
                    if has_entry(grid, r as int, c as int) {
                        let a = choose|a: int|
                            0 <= a < grid.len() && #[trigger] grid[a].0 == r as int && grid[a].1
                                == c as int;
                    }
                    assert(!has_entry(grid, block[0].0, block[0].1));
                }
                false
            } else {
                match values.get(r as usize, c as usize) {
                    Some(v) => {
                        out.push(v);
                        proof {
                            assert(has_entry(grid, block[0].0, block[0].1));
                            assert(values_of(block, grid) =~= seq![v]);
                            assert(out@ =~= mark + values_of(block, grid));
                        }
                        true
                    },
                    None => {
                        proof {
                            assert(!has_entry(grid, block[0].0, block[0].1));
                        }
                        false
                    },
                }
            }
        } else {
            traverse(r, c, sub, meta_patterns, values, out)
        };
        if !ok {
            proof {
                assert(!has_all(block, grid));
                if has_all(axis_cells(ax, row as int, col as int, n as int), grid) {
                    lemma_axis_has_all(ax, row as int, col as int, k as int + 1, n as int, grid);
                    assert forall|m: int| 0 <= m < block.len() implies has_entry(
                        grid,
                        (#[trigger] block[m]).0,
                        block[m].1,
                    ) by {
                        assert(after[before.len() + m] == block[m]);
                    }
                }
            }
            return false;
        }
        proof {
            assert(has_all(after, grid)) by {
                assert forall|m: int| 0 <= m < after.len() implies has_entry(
                    grid,
                    (#[trigger] after[m]).0,
                    after[m].1,
                ) by {
                    if m < before.len() {
                        assert(after[m] == before[m]);
                    } else {
                        assert(after[m] == block[m - before.len()]);
                    }
                }
            }
            assert(values_of(after, grid) =~= values_of(before, grid) + values_of(block, grid));
            assert(out@ =~= old(out)@ + values_of(after, grid));
        }
        k += 1;
    }
    true
}

/// The greatest order is no less than the order of any shape on record.
pub proof fn lemma_top_order(pats: Seq<(i32, MetaPattern)>, ids: Seq<i32>, upto: int, k: int)
    requires
        0 <= k < upto <= ids.len(),
    ensures
        order_of(pats, ids[k]) <= top_order(pats, ids, upto),
    decreases upto,
{
    if k < upto - 1 {
        lemma_top_order(pats, ids, upto - 1, k);
    }
}

/// With the single points last, the pieces before the cutoff are those
/// that are no single points.
pub proof fn lemma_cutoff(pieces: Seq<(MetaPatternPiece, i32)>, upto: int)
    requires
        singles_last(pieces),
        0 <= upto <= pieces.len(),
    ensures
        0 <= placed_count(pieces, upto) <= upto,
        forall|k: int|
            0 <= k < upto ==> ((#[trigger] pieces[k]).1 != SINGLE <==> k < placed_count(pieces, upto)),
    decreases upto,
{
    if upto > 0 {
        lemma_cutoff(pieces, upto - 1);
        let before = placed_count(pieces, upto - 1);
        if pieces[upto - 1].1 != SINGLE {
            assert(before == upto - 1) by {
                if before < upto - 1 {
                    assert(pieces[before].1 == SINGLE);
                }
            }
        }
    }
}

/// The fields of the header in front of the pointer are 26 bytes.
pub proof fn lemma_header_front(f: FileView)
    ensures
        header_front(f).len() == 26,
{
    lemma_fields();
}

impl SPFGen {
    /// Writes the first fields of the header.
    fn put_header_front(&self, buf: &mut Vec<u8>, transpose: bool, n_ids: usize)
        requires
            old(buf)@.len() == 0,
            n_ids == used_ids(self.view(transpose)).len(),
        ensures
            final(buf)@ == header_front(self.view(transpose)),
    {
        let ghost f = self.view(transpose);
        put_i32(buf, self.nnz as i32);
        put_i32(buf, self.inc_nnz as i32);
        if !transpose {
            put_i32(buf, self.nrows as i32);
            put_i32(buf, self.ncols as i32);
        } else {
            put_i32(buf, self.ncols as i32);
            put_i32(buf, self.nrows as i32);
        }
        put_i16(buf, 2i16);
        put_i32(buf, n_ids as i32);
        put_i32(buf, 0i32);
        proof {
            assert(buf@ =~= header_front(f));
        }
    }

    /// Writes the records of the shapes in use.
    fn put_shapes(&self, buf: &mut Vec<u8>, ids: &Vec<i32>, transpose: bool)
        requires
            shapes_ok(self.patterns()),
            ids@ == used_ids(self.view(transpose)),
            forall|k: int| 0 <= k < ids@.len() ==> has_key(self.patterns(), #[trigger] ids@[k]),
        ensures
            final(buf)@ == old(buf)@ + shape_table(self.view(transpose), ids@.len() as int),
    {
        let ghost f = self.view(transpose);
        let mut idx: usize = 0;
        assert(buf@ =~= old(buf)@ + shape_table(f, 0));
        while idx < ids.len()
            invariant
                idx <= ids.len(),
                f == self.view(transpose),
                shapes_ok(self.patterns()),
                ids@ == used_ids(f),
                forall|k: int| 0 <= k < ids@.len() ==> has_key(self.patterns(), #[trigger] ids@[k]),
                buf@ == old(buf)@ + shape_table(f, idx as int),
            decreases ids.len() - idx,
        {
            let id = ids[idx];
            let ghost ax = axes_of(f, id);
            proof {
                lemma_shape_known(self.patterns(), id);
                lemma_axes(self.patterns(), id, order_of(self.patterns(), id));
            }
            let (_, w, c) = metapattern_to_hyperrectangle_uwc(id, &self.meta_patterns);
            let d = w.len() / 2;
            let ghost mark = buf@;
            put_i16(buf, idx as i16);
            put_i16(buf, 0i16);
            put_i16(buf, d as i16);
            put_repeated(buf, 0, d);
            let mut lens: Vec<i32> = Vec::new();
            let mut k: usize = 0;
            while k < d
                invariant
                    k <= d,
                    d == ax.len(),
                    w@ == hyperrect_w(ax),
                    lens@ == lengths(ax).take(k as int),
                decreases d - k,
            {
                lens.push(w[k]);
                proof {
                    assert(lengths(ax).take(k as int + 1) =~= lengths(ax).take(k as int).push(
                        w@[k as int],
                    ));
                }
                k += 1;
            }
            proof {
                assert(lengths(ax).take(d as int) == lengths(ax));
            }
            put_i32_list(buf, &lens);
            put_repeated(buf, 1, d);
            if !transpose {
                proof {
                    assert(c@ =~= lattice_out(ax, false));
                }
                put_i32_list(buf, &c);
            } else {
                let mut swapped: Vec<i32> = Vec::new();
                let mut a: usize = 0;
                let width = c.len();
                while a < d
                    invariant
                        a <= d,
                        d == ax.len(),
                        width == 2 * d,
                        c@ == lattice(ax),
                        swapped@ == lattice_out(ax, true).take(2 * a),
                    decreases d - a,
                {
                    proof {
                        assert((2 * a) % 2 == 0 && (2 * a) / 2 == a) by (nonlinear_arith)
                            requires
                                a >= 0,
                        ;
                        assert((2 * a + 1) % 2 == 1 && (2 * a + 1) / 2 == a) by (nonlinear_arith)
                            requires
                                a >= 0,
                        ;
                    }
                    swapped.push(c[2 * a + 1]);
                    swapped.push(c[2 * a]);
                    proof {
                        assert(lattice_out(ax, true).take(2 * (a + 1)) =~= lattice_out(
                            ax,
                            true,
                        ).take(2 * a).push(c@[2 * a + 1]).push(c@[2 * a as int]));
                    }
                    a += 1;
                }
                proof {
                    assert(lattice_out(ax, true).take(2 * d) == lattice_out(ax, true));
                }
                put_i32_list(buf, &swapped);
            }
            proof {
                assert(buf@ =~= mark + shape_record(idx as int, ax, transpose));
                assert(buf@ =~= old(buf)@ + shape_table(f, idx as int + 1));
            }
            idx += 1;
        }
    }
}

/// The number of values before a piece grows with the pieces.
proof fn lemma_offsets_grow(f: FileView, a: int, b: int)
    requires
        0 <= a <= b <= f.pieces.len(),
        shapes_ok(f.pats),
        pieces_ok(f.pats, f.pieces),
    ensures
        0 <= offset_before(f, a) <= offset_before(f, b),
    decreases b - a,
{
    if a < b {
        lemma_offsets_grow(f, a, b - 1);
        let id = f.pieces[b - 1].1;
        lemma_shape_known(f.pats, id);
        lemma_axes(f.pats, id, order_of(f.pats, id));
        lemma_shape_size(axes_of(f, id), 0, 0);
    } else {
        lemma_offsets_zero(f, a);
    }
}

/// The values before a piece are none or more.
proof fn lemma_offsets_zero(f: FileView, a: int)
    requires
        0 <= a <= f.pieces.len(),
        shapes_ok(f.pats),
        pieces_ok(f.pats, f.pieces),
    ensures
        0 <= offset_before(f, a),
    decreases a,
{
    if a > 0 {
        lemma_offsets_zero(f, a - 1);
        let id = f.pieces[a - 1].1;
        lemma_shape_known(f.pats, id);
        lemma_axes(f.pats, id, order_of(f.pats, id));
        lemma_shape_size(axes_of(f, id), 0, 0);
    }
}

/// The 64-bit fields of two lists, one after the other.
proof fn lemma_u64_fields_concat(a: Seq<u64>, b: Seq<u64>)
    ensures
        u64_fields(a + b) == u64_fields(a) + u64_fields(b),
    decreases b.len(),
{
    if b.len() == 0 {
        assert(a + b == a);
    } else {
        lemma_u64_fields_concat(a, b.drop_last());
        assert((a + b).drop_last() == a + b.drop_last());
        assert((a + b).last() == b.last());
    }
}

impl SPFGen {
    /// Writes the records of the first `cut` pieces. Fails where the number
    /// of values in front of a piece leaves 32 bits.
    fn put_origins(
        &self,
        buf: &mut Vec<u8>,
        entries: &Vec<(MetaPatternPiece, i32)>,
        ids: &Vec<i32>,
        cut: usize,
        transpose: bool,
    ) -> (ok: bool)
        requires
            self.wf(),
            entries@ == self.pieces(),
            ids@ == used_ids(self.view(transpose)),
            cut == cutoff(self.view(transpose)),
        ensures
            ok == (offset_before(self.view(transpose), cut as int) <= i32::MAX),
            ok ==> final(buf)@ == old(buf)@ + origin_table(self.view(transpose), cut as int),
    {
        let ghost f = self.view(transpose);
        let mut data_offset: i32 = 0;
        let mut k: usize = 0;
        proof {
            lemma_cutoff(f.pieces, f.pieces.len() as int);
            lemma_first_ids(f.pieces, f.pieces.len() as int);
            assert(buf@ =~= old(buf)@ + origin_table(f, 0));
        }
        let reorder = reorder_map(ids);
        let shapes_in_use = ids.len();
        while k < cut
            invariant
                k <= cut <= entries@.len(),
                ids@.no_duplicates(),
                ids@.len() == shapes_in_use,
                rank_entries(reorder) == ranks_of(ids@),
                f == self.view(transpose),
                self.wf(),
                entries@ == self.pieces(),
                ids@ == used_ids(f),
                cut == cutoff(f),
                ids@.no_duplicates(),
                forall|m: int|
                    0 <= m < f.pieces.len() && (#[trigger] f.pieces[m]).1 != SINGLE ==> ids@.contains(
                        f.pieces[m].1,
                    ),
                forall|m: int|
                    0 <= m < f.pieces.len() ==> ((#[trigger] f.pieces[m]).1 != SINGLE <==> m < cut),
                data_offset == offset_before(f, k as int),
                buf@ == old(buf)@ + origin_table(f, k as int),
            decreases cut - k,
        {
            let ((row, col), id) = entries[k];
            assert(f.pieces[k as int].1 != SINGLE);
            let place = rank_in(&reorder, Ghost(ids@), id);
            let r: usize = match place {
                Some(r) => r,
                None => 0,
            };
            proof {
                assert(ids@.contains(f.pieces[k as int].1));
                lemma_rank(ids@, r as int);
                lemma_shape_known(self.patterns(), id);
                lemma_axes(self.patterns(), id, order_of(self.patterns(), id));
            }
            let (_, w, _) = metapattern_to_hyperrectangle_uwc(id, &self.meta_patterns);
            let d = w.len() / 2;
            let ghost mark = buf@;
            put_i16(buf, r as i16);
            if !transpose {
                put_i32(buf, row as i32);
                put_i32(buf, col as i32);
            } else {
                put_i32(buf, col as i32);
                put_i32(buf, row as i32);
            }
            put_i32(buf, data_offset);
            proof {
                assert(buf@ =~= mark + origin_record(f, k as int));
                assert(buf@ =~= old(buf)@ + origin_table(f, k as int + 1));
            }
            let size = cells_of_record(&w, d, Ghost(axes_of(f, id)));
            let next: i64 = match size {
                Some(n) => data_offset as i64 + n as i64,
                None => i64::MAX,
            };
            proof {
                lemma_shape_size(axes_of(f, id), 0, 0);
                lemma_offsets_zero(f, k as int);
                assert(f.pieces[k as int].1 == id);
                assert(offset_before(f, k as int + 1) == offset_before(f, k as int) + shape_size(
                    axes_of(f, id),
                ));
            }
            if next > i32::MAX as i64 {
                proof {
                    assert(offset_before(f, k as int + 1) > i32::MAX);
                    lemma_offsets_grow(f, k as int + 1, cut as int);
                }
                return false;
            }
            data_offset = next as i32;
            k += 1;
        }
        true
    }

    /// Writes the index of the single points: the pieces from `cut` on.
    fn put_single_index(
        &self,
        buf: &mut Vec<u8>,
        entries: &Vec<(MetaPatternPiece, i32)>,
        cut: usize,
        transpose: bool,
    )
        requires
            self.wf(),
            self.placed_within(),
            entries@ == self.pieces(),
            cut == cutoff(self.view(transpose)),
            cut <= entries@.len(),
            self.dims().0 <= i32::MAX,
            self.dims().1 <= i32::MAX,
            self.dims().3 <= self.dims().2 <= i32::MAX,
        ensures
            final(buf)@ == old(buf)@ + single_index(self.view(transpose)),
    {
        let ghost f = self.view(transpose);
        let mut points: Vec<(usize, usize)> = Vec::new();
        let mut k: usize = cut;
        while k < entries.len()
            invariant
                cut <= k <= entries@.len(),
                entries@ == f.pieces,
                f.transpose == transpose,
                points@ == tail_points(f, cut as int).take(k - cut),
            decreases entries.len() - k,
        {
            let (row, col) = entries[k].0;
            if transpose {
                points.push((col, row));
            } else {
                points.push((row, col));
            }
            proof {
                assert(f.pieces[cut + (k - cut)].0 == (row, col));
                assert(tail_points(f, cut as int)[k - cut] == if transpose {
                    (col, row)
                } else {
                    (row, col)
                });
                assert(tail_points(f, cut as int).take(k - cut + 1) =~= tail_points(
                    f,
                    cut as int,
                ).take(k - cut).push(tail_points(f, cut as int)[k - cut]));
            }
            k += 1;
        }
        proof {
            assert(tail_points(f, cut as int).take(entries@.len() - cut) == tail_points(
                f,
                cut as int,
            ));
            assert(points@ == single_points(f));
        }
        let resid = self.nnz - self.inc_nnz;
        let ghost mark = buf@;
        if residual_format(self.nrows, resid) == 0 {
            let out_r = if transpose {
                self.ncols
            } else {
                self.nrows
            };
            let out_c = if transpose {
                self.nrows
            } else {
                self.ncols
            };
            proof {
                assert(coords_within(points@, out_r as int, out_c as int)) by {
                    assert forall|m: int| 0 <= m < points@.len() implies (#[trigger] points@[m]).0
                        < out_r && points@[m].1 < out_c by {
                        assert(f.pieces[cut + m].0.0 < self.dims().0);
                    }
                }
                assert(points@.no_duplicates()) by {
                    assert forall|a: int, b: int|
                        0 <= a < points@.len() && 0 <= b < points@.len() && a != b implies points@[a]
                        != points@[b] by {
                        if a < b {
                            assert(f.pieces[cut + a].0 != f.pieces[cut + b].0);
                        } else {
                            assert(f.pieces[cut + b].0 != f.pieces[cut + a].0);
                        }
                    }
                }
            }
            let (indptr, indices) = csr_of_points(out_r, out_c, &points);
            let ghost sorted = stored_cells(points@);
            put_u8(buf, 0u8);
            let mut ptrs: Vec<i32> = Vec::new();
            let mut r: usize = 0;
            while r < indptr.len()
                invariant
                    r <= indptr@.len(),
                    indptr@.len() == out_r + 1,
                    sorted == stored_cells(points@),
                    forall|q: int|
                        0 <= q <= out_r ==> #[trigger] indptr@[q] == rows_before(
                            sorted,
                            q,
                            sorted.len() as int,
                        ),
                    ptrs@ == row_pointers(sorted, out_r as int).take(r as int),
                decreases indptr.len() - r,
            {
                ptrs.push(indptr[r] as i32);
                proof {
                    assert(row_pointers(sorted, out_r as int).take(r as int + 1) =~= row_pointers(
                        sorted,
                        out_r as int,
                    ).take(r as int).push(indptr@[r as int] as i32));
                }
                r += 1;
            }
            proof {
                assert(row_pointers(sorted, out_r as int).take(out_r + 1) == row_pointers(
                    sorted,
                    out_r as int,
                ));
            }
            put_i32_list(buf, &ptrs);
            let mut cols: Vec<i32> = Vec::new();
            let mut q: usize = 0;
            let ghost wanted = Seq::new(sorted.len(), |m: int| sorted[m].1 as i32);
            while q < indices.len()
                invariant
                    q <= indices@.len(),
                    indices@.len() == sorted.len(),
                    forall|m: int| 0 <= m < indices@.len() ==> #[trigger] indices@[m] == sorted[m].1,
                    wanted == Seq::new(sorted.len(), |m: int| sorted[m].1 as i32),
                    cols@ == wanted.take(q as int),
                decreases indices.len() - q,
            {
                cols.push(indices[q] as i32);
                proof {
                    assert(wanted.take(q as int + 1) =~= wanted.take(q as int).push(
                        indices@[q as int] as i32,
                    ));
                }
                q += 1;
            }
            proof {
                assert(wanted.take(sorted.len() as int) == wanted);
            }
            put_i32_list(buf, &cols);
            proof {
                assert(uses_csr(f));
                assert(buf@ =~= mark + single_index(f));
            }
        } else {
            put_u8(buf, 2u8);
            let mut firsts: Vec<i32> = Vec::new();
            let mut seconds: Vec<i32> = Vec::new();
            let ghost want_rows = Seq::new(points@.len(), |m: int| points@[m].0 as i32);
            let ghost want_cols = Seq::new(points@.len(), |m: int| points@[m].1 as i32);
            let mut m: usize = 0;
            while m < points.len()
                invariant
                    m <= points@.len(),
                    want_rows == Seq::new(points@.len(), |m: int| points@[m].0 as i32),
                    want_cols == Seq::new(points@.len(), |m: int| points@[m].1 as i32),
                    firsts@ == want_rows.take(m as int),
                    seconds@ == want_cols.take(m as int),
                decreases points.len() - m,
            {
                firsts.push(points[m].0 as i32);
                seconds.push(points[m].1 as i32);
                proof {
                    assert(want_rows.take(m as int + 1) =~= want_rows.take(m as int).push(
                        points@[m as int].0 as i32,
                    ));
                    assert(want_cols.take(m as int + 1) =~= want_cols.take(m as int).push(
                        points@[m as int].1 as i32,
                    ));
                }
                m += 1;
            }
            proof {
                assert(want_rows.take(points@.len() as int) == want_rows);
                assert(want_cols.take(points@.len() as int) == want_cols);
            }
            put_i32_list(buf, &firsts);
            put_i32_list(buf, &seconds);
            proof {
                assert(!uses_csr(f));
                assert(buf@ =~= mark + single_index(f));
            }
        }
    }

    /// Writes the values of all pieces, piece after piece. Reports whether
    /// the grid held a value for every cell.
    fn put_values(
        &self,
        buf: &mut Vec<u8>,
        entries: &Vec<(MetaPatternPiece, i32)>,
        values: &ValueGrid,
        Ghost(transpose): Ghost<bool>,
    ) -> (ok: bool)
        requires
            self.wf(),
            entries@ == self.pieces(),
            row_major_sorted(values.cells()),
        ensures
            ok == has_values(self.view(transpose), values.cells()),
            ok ==> final(buf)@ == old(buf)@ + u64_fields(
                values_before(self.view(transpose), values.cells(), entries@.len() as int),
            ),
    {
        let ghost f = self.view(transpose);
        let ghost grid = values.cells();
        let mut k: usize = 0;
        proof {
            assert(buf@ =~= old(buf)@ + u64_fields(values_before(f, grid, 0)));
        }
        while k < entries.len()
            invariant
                k <= entries@.len(),
                f == self.view(transpose),
                grid == values.cells(),
                self.wf(),
                entries@ == self.pieces(),
                row_major_sorted(values.cells()),
                forall|m: int|
                    0 <= m < k ==> has_all(
                        piece_cells(f.pats, (#[trigger] f.pieces[m]).0, f.pieces[m].1),
                        grid,
                    ),
                buf@ == old(buf)@ + u64_fields(values_before(f, grid, k as int)),
            decreases entries.len() - k,
        {
            let ((row, col), id) = entries[k];
            proof {
                lemma_shape_known(self.patterns(), id);
            }
            let mut vals: Vec<u64> = Vec::new();
            let ok = traverse(row as i128, col as i128, id, &self.meta_patterns, values, &mut vals);
            if !ok {
                return false;
            }
            let ghost cells = piece_cells(f.pats, f.pieces[k as int].0, f.pieces[k as int].1);
            assert(vals@ =~= values_of(cells, grid));
            let ghost before = values_before(f, grid, k as int);
            let mut m: usize = 0;
            proof {
                assert(before + vals@.take(0) =~= before);
            }
            while m < vals.len()
                invariant
                    m <= vals@.len(),
                    buf@ == old(buf)@ + u64_fields(before + vals@.take(m as int)),
                decreases vals.len() - m,
            {
                put_u64(buf, vals[m]);
                proof {
                    lemma_u64_fields_push(before + vals@.take(m as int), vals@[m as int]);
                    assert(before + vals@.take(m as int + 1) =~= (before + vals@.take(
                        m as int,
                    )).push(vals@[m as int]));
                    assert(buf@ =~= old(buf)@ + u64_fields(before + vals@.take(m as int + 1)));
                }
                m += 1;
            }
            proof {
                assert(vals@.take(vals@.len() as int) == vals@);
            }
            k += 1;
        }
        true
    }
}

/// The format byte of the index of `resid` single points in a matrix of
/// `nrows` rows: 0, compressed rows, where the row pointers and the columns
/// take no more words than two coordinates for each point; 2, coordinates,
/// otherwise.
pub fn residual_format(nrows: usize, resid: usize) -> (format: u8)
    ensures
        format == 0 || format == 2,
        format == 0 <==> nrows + 1 + resid <= 2 * resid,
{
    let csr_size: u128 = nrows as u128 + 1 + resid as u128;
    let coo_size: u128 = 2 * (resid as u128);
    if csr_size <= coo_size {
        0
    } else {
        2
    }
}

/// The values of the cells of the shape `metapattern_id` placed at the
/// origin, in the order of the file: the outermost axis varies slowest.
/// `None` where the grid lacks the value of a cell.
pub fn recursive_traverse(
    metapattern_piece: &MetaPatternPiece,
    metapattern_id: i32,
    meta_patterns: &LinkedHashMap<i32, MetaPattern>,
    values: &ValueGrid,
) -> (found: Option<Vec<u64>>)
    requires
        nested_ok(
            pattern_entries(*meta_patterns),
            metapattern_id,
            order_of(pattern_entries(*meta_patterns), metapattern_id),
        ),
        row_major_sorted(values.cells()),
    ensures
        found is Some <==> has_all(
            piece_cells(pattern_entries(*meta_patterns), *metapattern_piece, metapattern_id),
            values.cells(),
        ),
        found matches Some(v) ==> v@ == values_of(
            piece_cells(pattern_entries(*meta_patterns), *metapattern_piece, metapattern_id),
            values.cells(),
        ),
{
    let mut out: Vec<u64> = Vec::new();
    let (row, col) = *metapattern_piece;
    if traverse(row as i128, col as i128, metapattern_id, meta_patterns, values, &mut out) {
        proof {
            let cells = piece_cells(
                pattern_entries(*meta_patterns),
                *metapattern_piece,
                metapattern_id,
            );
            assert(out@ =~= values_of(cells, values.cells()));
        }
        Some(out)
    } else {
        None
    }
}

/// The number of pieces that are no single points.
fn count_placed(entries: &Vec<(MetaPatternPiece, i32)>) -> (cut: usize)
    ensures
        cut == placed_count(entries@, entries@.len() as int),
        cut <= entries@.len(),
{
    let mut cut: usize = 0;
    let mut k: usize = 0;
    while k < entries.len()
        invariant
            k <= entries@.len(),
            cut == placed_count(entries@, k as int),
            cut <= k,
        decreases entries.len() - k,
    {
        if entries[k].1 != SINGLE {
            cut += 1;
        }
        k += 1;
    }
    cut
}

/// The greatest order among the shapes, 0 where there is none.
fn greatest_order(shapes: &LinkedHashMap<i32, MetaPattern>, ids: &Vec<i32>) -> (top: i32)
    ensures
        top == top_order(pattern_entries(*shapes), ids@, ids@.len() as int),
        top >= 0,
{
    let mut top: i32 = 0;
    let mut n: usize = 0;
    while n < ids.len()
        invariant
            n <= ids@.len(),
            top == top_order(pattern_entries(*shapes), ids@, n as int),
            top >= 0,
        decreases ids.len() - n,
    {
        let order: i32 = match patterns_get(shapes, ids[n]) {
            Some(shape) => shape.1,
            None => 0,
        };
        if order > top {
            top = order;
        }
        n += 1;
    }
    top
}

/// The part of the conditions on a file that the tables decide.
pub open spec fn tables_fit(f: FileView) -> bool {
    &&& used_ids(f).len() <= i16::MAX
    &&& dims_max(f) <= i16::MAX
    &&& offset_before(f, cutoff(f)) <= i32::MAX
}

impl SPFGen {
    /// What stands behind the pointer to the values: the reserved words,
    /// the two tables and the index of the single points.
    fn write_back(&self, entries: &Vec<(MetaPatternPiece, i32)>, ids: &Vec<i32>, transpose: bool) -> (made:
        Option<Vec<u8>>)
        requires
            self.wf(),
            self.placed_within(),
            entries@ == self.pieces(),
            ids@ == used_ids(self.view(transpose)),
            ids@.len() <= i16::MAX,
            self.dims().0 <= i32::MAX,
            self.dims().1 <= i32::MAX,
            self.dims().3 <= self.dims().2 <= i32::MAX,
        ensures
            match made {
                Some(back) => tables_fit(self.view(transpose)) && back@ == header_back(
                    self.view(transpose),
                ),
                None => !tables_fit(self.view(transpose)),
            },
    {
        let ghost f = self.view(transpose);
        let cut = count_placed(entries);
        let top_dims = greatest_order(&self.meta_patterns, ids);
        if top_dims > i16::MAX as i32 {
            return None;
        }
        let mut buf: Vec<u8> = Vec::new();
        put_i16(&mut buf, top_dims as i16);
        put_repeated(&mut buf, 0, top_dims as usize);
        let ghost back1 = buf@;
        proof {
            assert(back1 =~= reserved(f));
            lemma_first_ids(f.pieces, f.pieces.len() as int);
            assert forall|m: int| 0 <= m < ids@.len() implies has_key(
                self.patterns(),
                #[trigger] ids@[m],
            ) by {
                let p = choose|p: int|
                    0 <= p < f.pieces.len() && (#[trigger] f.pieces[p]).1 == ids@[m];
                assert(has_key(self.patterns(), f.pieces[p].1));
            }
        }
        self.put_shapes(&mut buf, ids, transpose);
        put_i32(&mut buf, cut as i32);
        let ghost back3 = buf@;
        if !self.put_origins(&mut buf, entries, ids, cut, transpose) {
            return None;
        }
        self.put_single_index(&mut buf, entries, cut, transpose);
        proof {
            assert(back3 == reserved(f) + shape_table(f, used_ids(f).len() as int) + le_i32(
                cutoff(f) as i32,
            ));
            assert(buf@ == back3 + origin_table(f, cutoff(f)) + single_index(f));
        }
        Some(buf)
    }

    /// The bytes of the file of this inventory. The values are looked up in
    /// `values`, cell by cell. With `transpose_output` the file holds the
    /// transposed matrix: rows and columns are exchanged in the shape, in the
    /// origins, in the strides of the shapes and in the index of the single
    /// points.
    ///
    /// The file is refused as inconsistent where the grid does not hold
    /// `nnz` values or lacks the value of a cell, and as unsupported where
    /// a number does not fit the field that holds it.
    pub fn write_spf(&self, values: &ValueGrid, transpose_output: bool) -> (out: Result<
        Vec<u8>,
        ErrorKind,
    >)
        requires
            self.wf(),
            self.placed_within(),
            row_major_sorted(values.cells()),
        ensures
            match out {
                Ok(bytes) => {
                    &&& values.cells().len() == self.dims().2
                    &&& encodable(self.view(transpose_output))
                    &&& has_values(self.view(transpose_output), values.cells())
                    &&& bytes@ == file_bytes(self.view(transpose_output), values.cells())
                },
                Err(e) => if values.cells().len() != self.dims().2 {
                    e == ErrorKind::Consistency
                } else if !encodable(self.view(transpose_output)) {
                    e == ErrorKind::Unsupported
                } else {
                    e == ErrorKind::Consistency && !has_values(
                        self.view(transpose_output),
                        values.cells(),
                    )
                },
            },
    {
        let ghost f = self.view(transpose_output);
        let ghost grid = values.cells();
        if values.nnz() != self.nnz {
            return Err(ErrorKind::Consistency);
        }
        if self.nnz > i32::MAX as usize || self.inc_nnz > self.nnz || self.nrows > i32::MAX as usize
            || self.ncols > i32::MAX as usize {
            return Err(ErrorKind::Unsupported);
        }
        let entries = pieces_to_vec(&self.meta_pattern_pieces);
        let ids = ids_in_use(&entries);
        if ids.len() > i16::MAX as usize {
            return Err(ErrorKind::Unsupported);
        }
        let mut back = match self.write_back(&entries, &ids, transpose_output) {
            Some(back) => back,
            None => {
                return Err(ErrorKind::Unsupported);
            },
        };
        proof {
            lemma_header_front(f);
            lemma_fields();
        }
        if back.len() > (i32::MAX - 30) as usize {
            return Err(ErrorKind::Unsupported);
        }
        let start = back.len() + 30;
        let mut buf: Vec<u8> = Vec::new();
        self.put_header_front(&mut buf, transpose_output, ids.len());
        put_i32(&mut buf, start as i32);
        buf.append(&mut back);
        let ghost head = buf@;
        proof {
            assert(head == header_front(f) + le_i32(data_start(f) as i32) + header_back(f));
        }
        if !self.put_values(&mut buf, &entries, values, Ghost(transpose_output)) {
            return Err(ErrorKind::Consistency);
        }
        Ok(buf)
    }
}

/// The greatest order of no shapes is 0, and it is never negative.
pub proof fn lemma_top_floor(pats: Seq<(i32, MetaPattern)>, ids: Seq<i32>, upto: int)
    ensures
        top_order(pats, ids, upto) >= 0,
    decreases upto,
{
    if upto > 0 {
        lemma_top_floor(pats, ids, upto - 1);
    }
}

} // verus!
