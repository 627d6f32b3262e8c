//! The mathematical model of flattening.
//!
//! The model describes the traversal by the sequence of `(path, leaf)`
//! pairs it emits, in traversal order (`emits_of_value` and friends), and
//! the resulting flat mapping as the fold of those pairs where a later
//! pair overwrites an earlier one with the same path (`pairs_map`).

use vstd::prelude::*;

use crate::value::{DotMap, Entry, Value};

verus! {

/// A scalar leaf: neither an array nor an object.
pub open spec fn is_leaf(v: Value) -> bool {
    !(v is Arr) && !(v is Obj)
}

/// The decimal digit character for `d` (meaningful for `d < 10`).
pub open spec fn dec_digit(d: nat) -> char {
    if d == 0 {
        '0'
    } else if d == 1 {
        '1'
    } else if d == 2 {
        '2'
    } else if d == 3 {
        '3'
    } else if d == 4 {
        '4'
    } else if d == 5 {
        '5'
    } else if d == 6 {
        '6'
    } else if d == 7 {
        '7'
    } else if d == 8 {
        '8'
    } else {
        '9'
    }
}

/// The decimal text of `n`: no sign, no padding.
pub open spec fn dec_str(n: nat) -> Seq<char>
    decreases n,
{
    if n < 10 {
        seq![dec_digit(n)]
    } else {
        dec_str(n / 10).push(dec_digit(n % 10))
    }
}

/// Path segments joined with a single `.` character.
pub open spec fn join_segs(segs: Seq<Seq<char>>) -> Seq<char>
    decreases segs.len(),
{
    if segs.len() == 0 {
        Seq::empty()
    } else if segs.len() == 1 {
        segs[0]
    } else {
        join_segs(segs.drop_last()) + seq!['.'] + segs.last()
    }
}

/// The character sequences of a sequence of strings.
pub open spec fn views_of(segs: Seq<String>) -> Seq<Seq<char>> {
    segs.map_values(|s: String| s@)
}

/// The `(path, leaf)` pairs the traversal of `v` emits, in order, when `v`
/// stands at the position named by the segments `segs`.
pub open spec fn emits_of_value(v: Value, segs: Seq<Seq<char>>) -> Seq<(Seq<char>, Value)>
    decreases v,
{
    match v {
        Value::Arr(a) => emits_of_arr(a@, segs),
        Value::Obj(m) => emits_of_entries(m.entries@, segs),
        _ => seq![(join_segs(segs), v)],
    }
}

/// The pairs emitted by walking object entries in order, each child at the
/// position `segs` extended with its key.
pub open spec fn emits_of_entries(es: Seq<Entry>, segs: Seq<Seq<char>>) -> Seq<
    (Seq<char>, Value),
>
    decreases es,
{
    if es.len() == 0 {
        Seq::empty()
    } else {
        emits_of_entries(es.drop_last(), segs) + emits_of_value(
            es.last().val,
            segs.push(es.last().key@),
        )
    }
}

/// The pairs emitted by walking array elements in order, each child at the
/// position `segs` extended with its decimal index.
pub open spec fn emits_of_arr(vs: Seq<Value>, segs: Seq<Seq<char>>) -> Seq<(Seq<char>, Value)>
    decreases vs,
{
    if vs.len() == 0 {
        Seq::empty()
    } else {
        emits_of_arr(vs.drop_last(), segs) + emits_of_value(
            vs.last(),
            segs.push(dec_str((vs.len() - 1) as nat)),
        )
    }
}

/// The flat mapping described by emitted pairs: pairs are inserted in
/// order, so a later pair overwrites an earlier one with the same path.
pub open spec fn pairs_map(ps: Seq<(Seq<char>, Value)>) -> Map<Seq<char>, Value>
    decreases ps.len(),
{
    if ps.len() == 0 {
        Map::empty()
    } else {
        pairs_map(ps.drop_last()).insert(ps.last().0, ps.last().1)
    }
}

/// The `(key, value)` pairs of object entries, in order.
pub open spec fn entry_pairs(es: Seq<Entry>) -> Seq<(Seq<char>, Value)> {
    es.map_values(|e: Entry| (e.key@, e.val))
}

/// The keys of the pairs are pairwise distinct.
pub open spec fn distinct_keys(ps: Seq<(Seq<char>, Value)>) -> bool {
    forall|i: int, j: int| 0 <= i < j < ps.len() ==> ps[i].0 != ps[j].0
}

/// The number of scalar leaves in `v`.
pub open spec fn leaf_count(v: Value) -> nat
    decreases v,
{
    match v {
        Value::Arr(a) => leaf_count_arr(a@),
        Value::Obj(m) => leaf_count_entries(m.entries@),
        _ => 1,
    }
}

/// The number of scalar leaves under a sequence of object entries.
pub open spec fn leaf_count_entries(es: Seq<Entry>) -> nat
    decreases es,
{
    if es.len() == 0 {
        0
    } else {
        leaf_count_entries(es.drop_last()) + leaf_count(es.last().val)
    }
}

/// The number of scalar leaves under a sequence of array elements.
pub open spec fn leaf_count_arr(vs: Seq<Value>) -> nat
    decreases vs,
{
    if vs.len() == 0 {
        0
    } else {
        leaf_count_arr(vs.drop_last()) + leaf_count(vs.last())
    }
}

/// The flat mapping of an object.
pub open spec fn flat_of_obj(m: DotMap) -> Map<Seq<char>, Value> {
    pairs_map(emits_of_entries(m.entries@, Seq::empty()))
}

/// The flat mapping of an array: its elements keyed by decimal index.
pub open spec fn flat_of_arr(vs: Seq<Value>) -> Map<Seq<char>, Value> {
    pairs_map(emits_of_arr(vs, Seq::empty()))
}

/// There is a root-to-leaf path with segments `p` from `v` down to the
/// scalar `leaf`.
pub open spec fn leads_to(v: Value, p: Seq<Seq<char>>, leaf: Value) -> bool
    decreases v,
{
    match v {
        Value::Arr(a) => leads_to_arr(a@, p, leaf),
        Value::Obj(m) => leads_to_entries(m.entries@, p, leaf),
        _ => p.len() == 0 && leaf == v,
    }
}

/// Some entry's key opens the path `p`, and its value leads on to `leaf`.
pub open spec fn leads_to_entries(es: Seq<Entry>, p: Seq<Seq<char>>, leaf: Value) -> bool
    decreases es,
{
    exists|i: int|
        0 <= i < es.len() && p.len() > 0 && p[0] == es[i].key@ && leads_to(
            es[i].val,
            p.drop_first(),
            leaf,
        )
}

/// Some element's decimal index opens the path `p`, and the element leads
/// on to `leaf`.
pub open spec fn leads_to_arr(vs: Seq<Value>, p: Seq<Seq<char>>, leaf: Value) -> bool
    decreases vs,
{
    exists|i: int|
        0 <= i < vs.len() && p.len() > 0 && p[0] == dec_str(i as nat) && leads_to(
            vs[i],
            p.drop_first(),
            leaf,
        )
}

/// A path is in the mapping of the pairs exactly when some pair carries it.
pub proof fn lemma_pairs_map_contains(ps: Seq<(Seq<char>, Value)>, k: Seq<char>)
    ensures
        pairs_map(ps).contains_key(k) <==> exists|j: int| 0 <= j < ps.len() && ps[j].0 == k,
    decreases ps.len(),
{
    if ps.len() == 0 {
        assert(pairs_map(ps) =~= Map::<Seq<char>, Value>::empty());
    } else {
        lemma_pairs_map_contains(ps.drop_last(), k);
        if ps.last().0 == k {
            assert(ps[ps.len() - 1].0 == k);
        } else {
            if exists|j: int| 0 <= j < ps.drop_last().len() && ps.drop_last()[j].0 == k {
                let j0 = choose|j: int| 0 <= j < ps.drop_last().len() && ps.drop_last()[j].0 == k;
                assert(ps[j0].0 == k);
            }
            if exists|j: int| 0 <= j < ps.len() && ps[j].0 == k {
                let j0 = choose|j: int| 0 <= j < ps.len() && ps[j].0 == k;
                assert(ps.drop_last()[j0].0 == k);
            }
        }
    }
}

/// The mapping of the pairs holds, at the path of pair `i`, the value of
/// pair `i`, provided no later pair carries the same path.
pub proof fn lemma_pairs_map_last_match(ps: Seq<(Seq<char>, Value)>, i: int)
    requires
        0 <= i < ps.len(),
        forall|j: int| i < j < ps.len() ==> ps[j].0 != ps[i].0,
    ensures
        pairs_map(ps).contains_key(ps[i].0),
        pairs_map(ps)[ps[i].0] == ps[i].1,
    decreases ps.len(),
{
    if i < ps.len() - 1 {
        assert(forall|j: int|
            i < j < ps.drop_last().len() ==> ps.drop_last()[j].0 != ps.drop_last()[i].0);
        lemma_pairs_map_last_match(ps.drop_last(), i);
        assert(ps[ps.len() - 1].0 != ps[i].0);
    }
}

/// Overwriting pair `i` in place acts on the mapping as inserting the new
/// pair, when the keys are distinct and the path is unchanged.
pub proof fn lemma_pairs_map_update(ps: Seq<(Seq<char>, Value)>, i: int, p: (Seq<char>, Value))
    requires
        distinct_keys(ps),
        0 <= i < ps.len(),
        ps[i].0 == p.0,
    ensures
        distinct_keys(ps.update(i, p)),
        pairs_map(ps.update(i, p)) == pairs_map(ps).insert(p.0, p.1),
    decreases ps.len(),
{
    let q = ps.update(i, p);
    assert(forall|j: int| 0 <= j < q.len() ==> q[j].0 == ps[j].0);
    if i == ps.len() - 1 {
        assert(q.drop_last() =~= ps.drop_last());
        assert(q.last() == p);
        assert(pairs_map(ps).insert(p.0, p.1) =~= pairs_map(ps.drop_last()).insert(p.0, p.1));
    } else {
        assert(distinct_keys(ps.drop_last()));
        assert(ps.drop_last()[i] == ps[i]);
        lemma_pairs_map_update(ps.drop_last(), i, p);
        assert(q.drop_last() =~= ps.drop_last().update(i, p));
        assert(q.last() == ps.last());
        assert(ps.last().0 != p.0);
        assert(pairs_map(ps.drop_last()).insert(p.0, p.1).insert(ps.last().0, ps.last().1)
            =~= pairs_map(ps.drop_last()).insert(ps.last().0, ps.last().1).insert(p.0, p.1));
    }
}

/// Folding concatenated pair sequences is folding each in turn, the later
/// one taking precedence on shared paths.
pub proof fn lemma_pairs_map_concat(a: Seq<(Seq<char>, Value)>, b: Seq<(Seq<char>, Value)>)
    ensures
        pairs_map(a + b) == pairs_map(a).union_prefer_right(pairs_map(b)),
    decreases b.len(),
{
    if b.len() == 0 {
        assert(a + b =~= a);
        assert(pairs_map(a).union_prefer_right(pairs_map(b)) =~= pairs_map(a));
    } else {
        lemma_pairs_map_concat(a, b.drop_last());
        assert((a + b).drop_last() =~= a + b.drop_last());
        assert((a + b).last() == b.last());
        assert(pairs_map(a).union_prefer_right(pairs_map(b)) =~= pairs_map(a).union_prefer_right(
            pairs_map(b.drop_last()),
        ).insert(b.last().0, b.last().1));
    }
}

/// With pairwise-distinct paths, the mapping has one entry per pair.
pub proof fn lemma_pairs_map_card(ps: Seq<(Seq<char>, Value)>)
    requires
        distinct_keys(ps),
    ensures
        pairs_map(ps).dom().finite(),
        pairs_map(ps).dom().len() == ps.len(),
    decreases ps.len(),
{
    if ps.len() == 0 {
        assert(pairs_map(ps).dom() =~= Set::<Seq<char>>::empty());
    } else {
        assert(distinct_keys(ps.drop_last()));
        lemma_pairs_map_card(ps.drop_last());
        lemma_pairs_map_contains(ps.drop_last(), ps.last().0);
        assert(forall|j: int| 0 <= j < ps.drop_last().len() ==> ps.drop_last()[j] == ps[j]);
        assert(!pairs_map(ps.drop_last()).contains_key(ps.last().0));
        assert(pairs_map(ps).dom() =~= pairs_map(ps.drop_last()).dom().insert(ps.last().0));
    }
}

} // verus!
