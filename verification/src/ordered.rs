//! Maps and sets that remember the order in which their keys came.
//!
//! The containers are `linked_hash_map::LinkedHashMap` and
//! `linked_hash_set::LinkedHashSet`. Their model here is the sequence of
//! entries from the oldest to the newest. What each operation does to that
//! sequence is stated as the source of the two crates has it and is not proved.

use vstd::prelude::*;
use linked_hash_map::LinkedHashMap;
use linked_hash_set::LinkedHashSet;
use crate::utils::{MetaPattern, MetaPatternPiece, Pattern};

verus! {

/// No key stands twice among the entries.
pub open spec fn distinct_keys<K, V>(s: Seq<(K, V)>) -> bool {
    forall|i: int, j: int| 0 <= i < j < s.len() ==> (#[trigger] s[i]).0 != (#[trigger] s[j]).0
}

/// Some entry has the key.
pub open spec fn has_key<K, V>(s: Seq<(K, V)>, key: K) -> bool {
    exists|i: int| 0 <= i < s.len() && (#[trigger] s[i]).0 == key
}

/// The value under the key, `None` where no entry has it.
pub open spec fn lookup<K, V>(s: Seq<(K, V)>, key: K) -> Option<V> {
    if has_key(s, key) {
        Some(s[choose|i: int| 0 <= i < s.len() && (#[trigger] s[i]).0 == key].1)
    } else {
        None
    }
}

/// The entries without those of the key, the others in their order.
pub open spec fn without_key<K, V>(s: Seq<(K, V)>, key: K) -> Seq<(K, V)>
    decreases s.len(),
{
    if s.len() == 0 {
        s
    } else if s.last().0 == key {
        without_key(s.drop_last(), key)
    } else {
        without_key(s.drop_last(), key).push(s.last())
    }
}

/// What an insertion does: the entry becomes the newest, and an older entry
/// of the same key is gone.
pub open spec fn put<K, V>(s: Seq<(K, V)>, key: K, val: V) -> Seq<(K, V)> {
    without_key(s, key).push((key, val))
}

/// The entry at an index is the one that a lookup of its key finds.
pub proof fn lemma_lookup_at<K, V>(s: Seq<(K, V)>, i: int)
    requires
        distinct_keys(s),
        0 <= i < s.len(),
    ensures
        has_key(s, s[i].0),
        lookup(s, s[i].0) == Some(s[i].1),
{
    let key = s[i].0;
    assert(s[i].0 == key);
    let j = choose|j: int| 0 <= j < s.len() && (#[trigger] s[j]).0 == key;
    if i < j {
        assert(s[i].0 != s[j].0);
    }
    if j < i {
        assert(s[j].0 != s[i].0);
    }
}

/// What is left when a key is taken out is a part of the entries, in order.
pub proof fn lemma_without_key_part<K, V>(s: Seq<(K, V)>, key: K)
    ensures
        without_key(s, key).len() <= s.len(),
        forall|j: int|
            0 <= j < without_key(s, key).len() ==> (#[trigger] without_key(s, key)[j]).0 != key
                && exists|i: int| j <= i < s.len() && s[i] == without_key(s, key)[j],
        forall|i: int|
            0 <= i < s.len() && (#[trigger] s[i]).0 != key ==> exists|j: int|
                0 <= j <= i && j < without_key(s, key).len() && without_key(s, key)[j] == s[i],
    decreases s.len(),
{
    let out = without_key(s, key);
    if s.len() > 0 {
        let front = s.drop_last();
        let sub = without_key(front, key);
        lemma_without_key_part(front, key);
        assert forall|j: int| 0 <= j < out.len() implies (#[trigger] out[j]).0 != key && exists|
            i: int,
        |
            j <= i < s.len() && s[i] == out[j] by {
            if j < sub.len() {
                assert(out[j] == sub[j]);
                let i = choose|i: int| j <= i < front.len() && front[i] == sub[j];
                assert(s[i] == out[j]);
            } else {
                assert(s[s.len() - 1] == out[j]);
            }
        }
        assert forall|i: int| 0 <= i < s.len() && (#[trigger] s[i]).0 != key implies exists|j: int|
            0 <= j <= i && j < out.len() && out[j] == s[i] by {
            if i < front.len() {
                assert(front[i] == s[i]);
                let j = choose|j: int| 0 <= j <= i && j < sub.len() && sub[j] == front[i];
                assert(out[j] == s[i]);
            } else {
                assert(out[out.len() - 1] == s[i]);
            }
        }
    }
}

/// Taking a key out leaves the others distinct.
pub proof fn lemma_without_key_distinct<K, V>(s: Seq<(K, V)>, key: K)
    requires
        distinct_keys(s),
    ensures
        distinct_keys(without_key(s, key)),
    decreases s.len(),
{
    let out = without_key(s, key);
    if s.len() > 0 {
        let front = s.drop_last();
        let sub = without_key(front, key);
        assert(distinct_keys(front)) by {
            assert forall|a: int, b: int| 0 <= a < b < front.len() implies (#[trigger] front[a]).0
                != (#[trigger] front[b]).0 by {
                assert(s[a].0 != s[b].0);
            }
        }
        lemma_without_key_distinct(front, key);
        lemma_without_key_part(front, key);
        assert forall|a: int, b: int| 0 <= a < b < out.len() implies (#[trigger] out[a]).0
            != (#[trigger] out[b]).0 by {
            if b < sub.len() {
                assert(sub[a].0 != sub[b].0);
            } else {
                assert(out[a] == sub[a]);
                let i = choose|i: int| a <= i < front.len() && front[i] == sub[a];
                assert(s[i].0 != s[s.len() - 1].0);
            }
        }
    }
}

/// Taking out a key that is absent changes nothing.
pub proof fn lemma_without_key_absent<K, V>(s: Seq<(K, V)>, key: K)
    requires
        !has_key(s, key),
    ensures
        without_key(s, key) == s,
    decreases s.len(),
{
    if s.len() > 0 {
        let front = s.drop_last();
        assert(!has_key(front, key)) by {
            if has_key(front, key) {
                let i = choose|i: int| 0 <= i < front.len() && (#[trigger] front[i]).0 == key;
                assert(s[i].0 == key);
            }
        }
        lemma_without_key_absent(front, key);
        assert(s[s.len() - 1].0 != key);
        assert(without_key(s, key) == s);
    }
}

/// Which keys are left when one is taken out, and what they hold.
pub proof fn lemma_without_key<K, V>(s: Seq<(K, V)>, key: K)
    ensures
        !has_key(without_key(s, key), key),
        forall|k: K| k != key ==> (has_key(without_key(s, key), k) <==> has_key(s, k)),
        distinct_keys(s) ==> distinct_keys(without_key(s, key)),
        distinct_keys(s) ==> forall|k: K| k != key ==> lookup(without_key(s, key), k) == lookup(s, k),
{
    let out = without_key(s, key);
    lemma_without_key_part(s, key);
    assert(!has_key(out, key)) by {
        if has_key(out, key) {
            let j = choose|j: int| 0 <= j < out.len() && (#[trigger] out[j]).0 == key;
        }
    }
    assert forall|k: K| k != key implies (has_key(out, k) <==> has_key(s, k)) by {
        if has_key(out, k) {
            let j = choose|j: int| 0 <= j < out.len() && (#[trigger] out[j]).0 == k;
            let i = choose|i: int| j <= i < s.len() && s[i] == out[j];
            assert(s[i].0 == k);
        }
        if has_key(s, k) {
            let i = choose|i: int| 0 <= i < s.len() && (#[trigger] s[i]).0 == k;
            let j = choose|j: int| 0 <= j <= i && j < out.len() && out[j] == s[i];
            assert(out[j].0 == k);
        }
    }
    if distinct_keys(s) {
        lemma_without_key_distinct(s, key);
        assert forall|k: K| k != key implies lookup(out, k) == lookup(s, k) by {
            if has_key(s, k) {
                let i = choose|i: int| 0 <= i < s.len() && (#[trigger] s[i]).0 == k;
                let j = choose|j: int| 0 <= j <= i && j < out.len() && out[j] == s[i];
                lemma_lookup_at(out, j);
                lemma_lookup_at(s, i);
            }
        }
    }
}

/// What an insertion leaves: distinct keys, the new entry last, and every
/// other key with the value it had.
pub proof fn lemma_put<K, V>(s: Seq<(K, V)>, key: K, val: V)
    requires
        distinct_keys(s),
    ensures
        distinct_keys(put(s, key, val)),
        lookup(put(s, key, val), key) == Some(val),
        forall|k: K| k != key ==> lookup(put(s, key, val), k) == lookup(s, k),
        forall|k: K| has_key(put(s, key, val), k) <==> (k == key || has_key(s, k)),
        !has_key(s, key) ==> put(s, key, val) == s.push((key, val)),
{
    let base = without_key(s, key);
    let out = put(s, key, val);
    lemma_without_key(s, key);
    if !has_key(s, key) {
        lemma_without_key_absent(s, key);
    }
    assert(out[out.len() - 1] == (key, val));
    assert forall|i: int, j: int| 0 <= i < j < out.len() implies (#[trigger] out[i]).0
        != (#[trigger] out[j]).0 by {
        if j < base.len() {
            assert(base[i].0 != base[j].0);
        } else {
            assert(out[i] == base[i]);
            if base[i].0 == key {
                assert(has_key(base, key));
            }
        }
    }
    lemma_lookup_at(out, out.len() - 1);
    assert forall|k: K| has_key(out, k) <==> (k == key || has_key(s, k)) by {
        if has_key(out, k) && k != key {
            let j = choose|j: int| 0 <= j < out.len() && (#[trigger] out[j]).0 == k;
            assert(base[j].0 == k);
            assert(has_key(base, k));
        }
        if k == key {
            assert(out[out.len() - 1].0 == k);
        }
        if has_key(s, k) && k != key {
            assert(has_key(base, k));
            let j = choose|j: int| 0 <= j < base.len() && (#[trigger] base[j]).0 == k;
            assert(out[j].0 == k);
        }
    }
    assert forall|k: K| k != key implies lookup(out, k) == lookup(s, k) by {
        if has_key(s, k) {
            assert(has_key(base, k));
            let j = choose|j: int| 0 <= j < base.len() && (#[trigger] base[j]).0 == k;
            assert(out[j] == base[j]);
            lemma_lookup_at(out, j);
            lemma_lookup_at(base, j);
        }
    }
}

/// `linked_hash_map::LinkedHashMap`: a hash map that walks its entries in
/// the order in which they were inserted. Verus cannot look into one: what
/// a map holds is named by [`pattern_entries`] and [`piece_entries`].
#[verifier::external_type_specification]
#[verifier::external_body]
#[verifier::reject_recursive_types(K)]
#[verifier::reject_recursive_types(V)]
#[verifier::reject_recursive_types(S)]
pub struct ExLinkedHashMap<K, V, S>(LinkedHashMap<K, V, S>);

/// The entries of a map from shape ids to shapes, oldest first.
pub uninterp spec fn pattern_entries(m: LinkedHashMap<i32, MetaPattern>) -> Seq<(i32, MetaPattern)>;

/// The entries of a map from origins to shape ids, oldest first.
pub uninterp spec fn piece_entries(m: LinkedHashMap<MetaPatternPiece, i32>) -> Seq<
    (MetaPatternPiece, i32),
>;

/// The shapes with the order of the shape `id` set; no entry moves.
pub open spec fn with_order(pats: Seq<(i32, MetaPattern)>, id: i32, order: i32) -> Seq<
    (i32, MetaPattern),
> {
    Seq::new(
        pats.len(),
        |k: int|
            if pats[k].0 == id {
                (id, (pats[k].1.0, order, pats[k].1.2))
            } else {
                pats[k]
            },
    )
}

/// `LinkedHashMap::new`: a map without entries.
#[verifier::external_body]
pub(crate) fn patterns_new() -> (m: LinkedHashMap<i32, MetaPattern>)
    ensures
        pattern_entries(m) == Seq::<(i32, MetaPattern)>::empty(),
{
    LinkedHashMap::new()
}

/// `LinkedHashMap::insert`: the entry becomes the newest; where the key was
/// present its older entry is dropped and the value it had is returned.
#[verifier::external_body]
pub(crate) fn patterns_insert(m: &mut LinkedHashMap<i32, MetaPattern>, id: i32, shape: MetaPattern) -> (had:
    Option<MetaPattern>)
    ensures
        pattern_entries(*final(m)) == put(pattern_entries(*old(m)), id, shape),
        had == lookup(pattern_entries(*old(m)), id),
{
    m.insert(id, shape)
}

/// `LinkedHashMap::get`: the value under the key, `None` where the map
/// does not hold the key. A map holds a key once, so the value is the one
/// that a lookup among the entries finds.
#[verifier::external_body]
pub(crate) fn patterns_get(m: &LinkedHashMap<i32, MetaPattern>, id: i32) -> (found: Option<
    MetaPattern,
>)
    ensures
        found == lookup(pattern_entries(*m), id),
{
    m.get(&id).copied()
}

/// `LinkedHashMap::back`: the newest entry, `None` where the map is
/// empty.
#[verifier::external_body]
pub(crate) fn patterns_back(m: &LinkedHashMap<i32, MetaPattern>) -> (found: Option<
    (i32, MetaPattern),
>)
    ensures
        match found {
            Some(entry) => pattern_entries(*m).len() > 0 && entry == pattern_entries(*m).last(),
            None => pattern_entries(*m).len() == 0,
        },
{
    m.back().map(|(k, v)| (*k, *v))
}

/// `LinkedHashMap::get_mut`, written through: the order field of the shape
/// under the key is replaced. The key must be present; no entry moves.
#[verifier::external_body]
pub(crate) fn patterns_set_order(m: &mut LinkedHashMap<i32, MetaPattern>, id: i32, order: i32)
    requires
        has_key(pattern_entries(*old(m)), id),
    ensures
        pattern_entries(*final(m)) == with_order(pattern_entries(*old(m)), id, order),
{
    m.get_mut(&id).unwrap().1 = order;
}

/// `LinkedHashMap::iter`, collected: the entries from the
/// oldest to the newest. A map holds each key once.
#[verifier::external_body]
pub(crate) fn patterns_to_vec(m: &LinkedHashMap<i32, MetaPattern>) -> (entries: Vec<
    (i32, MetaPattern),
>)
    ensures
        entries@ == pattern_entries(*m),
        distinct_keys(entries@),
{
    m.iter().map(|(k, v)| (*k, *v)).collect()
}

/// `LinkedHashMap::clone`: a map with the same entries in the same order.
#[verifier::external_body]
pub(crate) fn patterns_clone(m: &LinkedHashMap<i32, MetaPattern>) -> (copy: LinkedHashMap<
    i32,
    MetaPattern,
>)
    ensures
        pattern_entries(copy) == pattern_entries(*m),
{
    m.clone()
}

/// `LinkedHashMap::new`: a map without entries.
#[verifier::external_body]
pub(crate) fn pieces_new() -> (m: LinkedHashMap<MetaPatternPiece, i32>)
    ensures
        piece_entries(m) == Seq::<(MetaPatternPiece, i32)>::empty(),
{
    LinkedHashMap::new()
}

/// `LinkedHashMap::insert`: the entry becomes the newest; where the key was
/// present its older entry is dropped and the value it had is returned.
#[verifier::external_body]
pub(crate) fn pieces_insert(m: &mut LinkedHashMap<MetaPatternPiece, i32>, origin: MetaPatternPiece, id: i32) -> (had:
    Option<i32>)
    ensures
        piece_entries(*final(m)) == put(piece_entries(*old(m)), origin, id),
        had == lookup(piece_entries(*old(m)), origin),
{
    m.insert(origin, id)
}

/// `LinkedHashMap::remove`: the entry of the key is dropped, the others
/// keep their order; the value it had is returned.
#[verifier::external_body]
pub(crate) fn pieces_remove(m: &mut LinkedHashMap<MetaPatternPiece, i32>, origin: MetaPatternPiece) -> (had:
    Option<i32>)
    ensures
        piece_entries(*final(m)) == without_key(piece_entries(*old(m)), origin),
        had == lookup(piece_entries(*old(m)), origin),
{
    m.remove(&origin)
}

/// `LinkedHashMap::iter`, collected: the entries from the
/// oldest to the newest. A map holds each key once.
#[verifier::external_body]
pub(crate) fn pieces_to_vec(m: &LinkedHashMap<MetaPatternPiece, i32>) -> (entries: Vec<
    (MetaPatternPiece, i32),
>)
    ensures
        entries@ == piece_entries(*m),
        distinct_keys(entries@),
{
    m.iter().map(|(k, v)| (*k, *v)).collect()
}

/// `LinkedHashMap::clone`: a map with the same entries in the same order.
#[verifier::external_body]
pub(crate) fn pieces_clone(m: &LinkedHashMap<MetaPatternPiece, i32>) -> (copy: LinkedHashMap<
    MetaPatternPiece,
    i32,
>)
    ensures
        piece_entries(copy) == piece_entries(*m),
{
    m.clone()
}

/// The list without the value, the others in their order.
pub open spec fn without_value<T>(s: Seq<T>, x: T) -> Seq<T>
    decreases s.len(),
{
    if s.len() == 0 {
        s
    } else if s.last() == x {
        without_value(s.drop_last(), x)
    } else {
        without_value(s.drop_last(), x).push(s.last())
    }
}

/// The entries of a map from shape ids to their places in a file, oldest
/// first.
pub uninterp spec fn rank_entries(m: LinkedHashMap<i32, usize>) -> Seq<(i32, usize)>;

/// Collecting into a `LinkedHashMap`, which inserts the entries one after
/// the other. An insertion of a key that the map does not hold appends, so
/// the entries of a list with distinct keys come out as the list has them.
#[verifier::external_body]
pub(crate) fn ranks_collect(list: &Vec<(i32, usize)>) -> (m: LinkedHashMap<i32, usize>)
    requires
        distinct_keys(list@),
    ensures
        rank_entries(m) == list@,
{
    list.iter().copied().collect()
}

/// `LinkedHashMap::get`: the value under the key, `None` where the map
/// does not hold the key.
#[verifier::external_body]
pub(crate) fn ranks_get(m: &LinkedHashMap<i32, usize>, id: i32) -> (found: Option<usize>)
    ensures
        found == lookup(rank_entries(*m), id),
{
    m.get(&id).copied()
}

/// The entries of a map from strides to counts, oldest first.
pub uninterp spec fn occurrence_entries(m: LinkedHashMap<(i32, i32), u32>) -> Seq<((i32, i32), u32)>;

/// The entries with the value under the key replaced; no entry moves.
pub open spec fn with_value<K, V>(s: Seq<(K, V)>, key: K, val: V) -> Seq<(K, V)> {
    Seq::new(
        s.len(),
        |k: int|
            if s[k].0 == key {
                (key, val)
            } else {
                s[k]
            },
    )
}

/// Collecting into a `LinkedHashMap`, which inserts the entries one after
/// the other. An insertion of a key that the map does not hold appends, so
/// the entries of a list with distinct keys come out as the list has them.
#[verifier::external_body]
pub(crate) fn occurrences_collect(list: &Vec<((i32, i32), u32)>) -> (m: LinkedHashMap<
    (i32, i32),
    u32,
>)
    requires
        distinct_keys(list@),
    ensures
        occurrence_entries(m) == list@,
{
    list.iter().copied().collect()
}

/// `LinkedHashMap::get`: the value under the key, `None` where the map
/// does not hold the key.
#[verifier::external_body]
pub(crate) fn occurrences_get(m: &LinkedHashMap<(i32, i32), u32>, key: (i32, i32)) -> (found: Option<
    u32,
>)
    ensures
        found == lookup(occurrence_entries(*m), key),
{
    m.get(&key).copied()
}

/// `LinkedHashMap::get_mut`, written through: the value under the key is
/// replaced. The key must be present; no entry moves.
#[verifier::external_body]
pub(crate) fn occurrences_set(m: &mut LinkedHashMap<(i32, i32), u32>, key: (i32, i32), val: u32)
    requires
        has_key(occurrence_entries(*old(m)), key),
    ensures
        occurrence_entries(*final(m)) == with_value(occurrence_entries(*old(m)), key, val),
{
    *m.get_mut(&key).unwrap() = val;
}

/// `LinkedHashMap::iter`, collected: the entries from the oldest to the
/// newest. A map holds each key once.
#[verifier::external_body]
pub(crate) fn occurrences_to_vec(m: &LinkedHashMap<(i32, i32), u32>) -> (entries: Vec<
    ((i32, i32), u32),
>)
    ensures
        entries@ == occurrence_entries(*m),
        distinct_keys(entries@),
{
    m.iter().map(|(k, v)| (*k, *v)).collect()
}

/// The values of the list, each once, in the order of their last
/// occurrences: what is left after each value in turn was moved to the end.
pub open spec fn last_occurrences<T>(s: Seq<T>) -> Seq<T>
    decreases s.len(),
{
    if s.len() == 0 {
        s
    } else {
        without_value(last_occurrences(s.drop_last()), s.last()).push(s.last())
    }
}

/// Collects the patterns into a `LinkedHashSet` and walks it. An insertion
/// into that set places the value at the end of the order whether it was
/// present or not, so each pattern comes out once, at the place of its last
/// occurrence.
#[verifier::external_body]
pub(crate) fn distinct_patterns(list: &Vec<Pattern>) -> (distinct: Vec<Pattern>)
    ensures
        distinct@ == last_occurrences(list@),
{
    list.iter().copied().collect::<LinkedHashSet<Pattern>>().into_iter().collect()
}

} // verus!
