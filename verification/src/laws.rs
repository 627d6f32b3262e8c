//! Laws of the flattener, stated over the model and proved once and for
//! all: leaf-count preservation, the array-as-object equivalence,
//! empty-container erasure, flatness of the output, and idempotence of
//! re-flattening. The identity law on scalars is part of the contract of
//! [`crate::flatten::value_to_dot`] itself.

use vstd::prelude::*;

use crate::model::{
    dec_str, distinct_keys, emits_of_arr, emits_of_entries, emits_of_value, entry_pairs,
    flat_of_arr, flat_of_obj, is_leaf, join_segs, leads_to, leads_to_arr, leads_to_entries,
    leaf_count, leaf_count_arr, leaf_count_entries, lemma_pairs_map_card,
    lemma_pairs_map_contains, lemma_pairs_map_last_match, pairs_map,
};
use crate::value::{DotMap, Entry, Value};

verus! {

proof fn lemma_emits_len_value(v: Value, segs: Seq<Seq<char>>)
    ensures
        emits_of_value(v, segs).len() == leaf_count(v),
    decreases v,
{
    match v {
        Value::Arr(a) => lemma_emits_len_arr(a@, segs),
        Value::Obj(m) => lemma_emits_len_entries(m.entries@, segs),
        _ => {},
    }
}

proof fn lemma_emits_len_entries(es: Seq<Entry>, segs: Seq<Seq<char>>)
    ensures
        emits_of_entries(es, segs).len() == leaf_count_entries(es),
    decreases es,
{
    if es.len() > 0 {
        lemma_emits_len_entries(es.drop_last(), segs);
        lemma_emits_len_value(es.last().val, segs.push(es.last().key@));
    }
}

proof fn lemma_emits_len_arr(vs: Seq<Value>, segs: Seq<Seq<char>>)
    ensures
        emits_of_arr(vs, segs).len() == leaf_count_arr(vs),
    decreases vs,
{
    if vs.len() > 0 {
        lemma_emits_len_arr(vs.drop_last(), segs);
        lemma_emits_len_value(vs.last(), segs.push(dec_str((vs.len() - 1) as nat)));
    }
}

/// Leaf-count preservation: when the paths an object's traversal emits
/// are pairwise distinct, the flat mapping has exactly one entry per
/// scalar leaf reachable from the object. (With colliding paths — a key
/// containing `.`, say — later leaves overwrite earlier ones and the
/// count drops; the hypothesis rules those inputs out.)
pub proof fn lemma_leaf_count_preservation(m: DotMap)
    requires
        distinct_keys(emits_of_entries(m.entries@, Seq::empty())),
    ensures
        flat_of_obj(m).dom().finite(),
        flat_of_obj(m).dom().len() == leaf_count(Value::Obj(m)),
{
    lemma_pairs_map_card(emits_of_entries(m.entries@, Seq::empty()));
    lemma_emits_len_entries(m.entries@, Seq::empty());
}

proof fn lemma_emits_indexed_entries(vals: Seq<Value>, es: Seq<Entry>, segs: Seq<Seq<char>>)
    requires
        es.len() == vals.len(),
        forall|i: int|
            0 <= i < es.len() ==> es[i].key@ == dec_str(i as nat) && es[i].val == vals[i],
    ensures
        emits_of_entries(es, segs) == emits_of_arr(vals, segs),
    decreases vals.len(),
{
    if vals.len() > 0 {
        assert(forall|i: int| 0 <= i < es.drop_last().len() ==> es.drop_last()[i] == es[i]);
        assert(forall|i: int| 0 <= i < vals.drop_last().len() ==> vals.drop_last()[i] == vals[i]);
        lemma_emits_indexed_entries(vals.drop_last(), es.drop_last(), segs);
        assert(es.last().key@ == dec_str((vals.len() - 1) as nat));
        assert(es.last().val == vals.last());
    }
}

/// Array reinterpretation: an array flattens exactly as an object whose
/// keys are the decimal strings of its indices `0, 1, ...`, in order.
pub proof fn lemma_array_as_indexed_object(vals: Seq<Value>, m: DotMap)
    requires
        m.entries@.len() == vals.len(),
        forall|i: int|
            0 <= i < vals.len() ==> m.entries@[i].key@ == dec_str(i as nat) && m.entries@[i].val
                == vals[i],
    ensures
        flat_of_obj(m) == flat_of_arr(vals),
{
    lemma_emits_indexed_entries(vals, m.entries@, Seq::empty());
}

/// Empty-container erasure: an empty object or array, standing at any
/// position, contributes nothing to the flat mapping.
pub proof fn lemma_empty_container_erasure(v: Value, segs: Seq<Seq<char>>)
    requires
        (v matches Value::Arr(a) && a@.len() == 0) || (v matches Value::Obj(m) && m.entries@.len()
            == 0),
    ensures
        emits_of_value(v, segs) == Seq::<(Seq<char>, Value)>::empty(),
        pairs_map(emits_of_value(v, segs)) == Map::<Seq<char>, Value>::empty(),
{
    assert(emits_of_value(v, segs) =~= Seq::<(Seq<char>, Value)>::empty());
    assert(pairs_map(emits_of_value(v, segs)) =~= Map::<Seq<char>, Value>::empty());
}

proof fn lemma_emits_flat_entries(es: Seq<Entry>)
    requires
        forall|i: int| 0 <= i < es.len() ==> is_leaf(es[i].val),
    ensures
        emits_of_entries(es, Seq::empty()) == entry_pairs(es),
    decreases es,
{
    if es.len() == 0 {
        assert(emits_of_entries(es, Seq::empty()) =~= entry_pairs(es));
    } else {
        assert(forall|i: int| 0 <= i < es.drop_last().len() ==> es.drop_last()[i] == es[i]);
        lemma_emits_flat_entries(es.drop_last());
        let p = Seq::<Seq<char>>::empty().push(es.last().key@);
        assert(p.len() == 1 && p[0] == es.last().key@);
        assert(emits_of_value(es.last().val, p) =~= seq![(es.last().key@, es.last().val)]);
        assert(emits_of_entries(es, Seq::empty()) =~= entry_pairs(es));
    }
}

/// Flattening an already-flat object is the identity on its mapping: an
/// object all of whose values are scalar leaves flattens to exactly the
/// mapping it already holds.
pub proof fn lemma_flatten_flat_identity(d: DotMap)
    requires
        forall|i: int| 0 <= i < d.entries@.len() ==> is_leaf(d.entries@[i].val),
    ensures
        flat_of_obj(d) == d.as_map(),
{
    lemma_emits_flat_entries(d.entries@);
}

proof fn lemma_emits_leaves_value(v: Value, segs: Seq<Seq<char>>)
    ensures
        forall|j: int|
            0 <= j < emits_of_value(v, segs).len() ==> is_leaf(
                #[trigger] emits_of_value(v, segs)[j].1,
            ),
    decreases v,
{
    match v {
        Value::Arr(a) => {
            lemma_emits_leaves_arr(a@, segs);
            assert(emits_of_value(v, segs) == emits_of_arr(a@, segs));
        },
        Value::Obj(m) => {
            lemma_emits_leaves_entries(m.entries@, segs);
            assert(emits_of_value(v, segs) == emits_of_entries(m.entries@, segs));
        },
        _ => {},
    }
}

proof fn lemma_emits_leaves_entries(es: Seq<Entry>, segs: Seq<Seq<char>>)
    ensures
        forall|j: int|
            0 <= j < emits_of_entries(es, segs).len() ==> is_leaf(
                #[trigger] emits_of_entries(es, segs)[j].1,
            ),
    decreases es,
{
    if es.len() > 0 {
        lemma_emits_leaves_entries(es.drop_last(), segs);
        lemma_emits_leaves_value(es.last().val, segs.push(es.last().key@));
        let prefix = emits_of_entries(es.drop_last(), segs);
        let here = emits_of_value(es.last().val, segs.push(es.last().key@));
        assert forall|j: int| 0 <= j < emits_of_entries(es, segs).len() implies is_leaf(
            #[trigger] emits_of_entries(es, segs)[j].1,
        ) by {
            if j < prefix.len() {
                assert(emits_of_entries(es, segs)[j] == prefix[j]);
            } else {
                assert(emits_of_entries(es, segs)[j] == here[j - prefix.len()]);
            }
        }
    }
}

proof fn lemma_emits_leaves_arr(vs: Seq<Value>, segs: Seq<Seq<char>>)
    ensures
        forall|j: int|
            0 <= j < emits_of_arr(vs, segs).len() ==> is_leaf(#[trigger] emits_of_arr(vs, segs)[j].1),
    decreases vs,
{
    if vs.len() > 0 {
        lemma_emits_leaves_arr(vs.drop_last(), segs);
        lemma_emits_leaves_value(vs.last(), segs.push(dec_str((vs.len() - 1) as nat)));
        let prefix = emits_of_arr(vs.drop_last(), segs);
        let here = emits_of_value(vs.last(), segs.push(dec_str((vs.len() - 1) as nat)));
        assert forall|j: int| 0 <= j < emits_of_arr(vs, segs).len() implies is_leaf(
            #[trigger] emits_of_arr(vs, segs)[j].1,
        ) by {
            if j < prefix.len() {
                assert(emits_of_arr(vs, segs)[j] == prefix[j]);
            } else {
                assert(emits_of_arr(vs, segs)[j] == here[j - prefix.len()]);
            }
        }
    }
}

proof fn lemma_pairs_map_values_leaves(ps: Seq<(Seq<char>, Value)>, k: Seq<char>)
    requires
        forall|j: int| 0 <= j < ps.len() ==> is_leaf(#[trigger] ps[j].1),
        pairs_map(ps).contains_key(k),
    ensures
        is_leaf(pairs_map(ps)[k]),
    decreases ps.len(),
{
    if ps.len() > 0 && ps.last().0 != k {
        assert(forall|j: int| 0 <= j < ps.drop_last().len() ==> ps.drop_last()[j] == ps[j]);
        lemma_pairs_map_values_leaves(ps.drop_last(), k);
    }
}

/// Every value stored in an object's flat mapping is a scalar leaf.
pub proof fn lemma_flat_values_are_leaves(m: DotMap, k: Seq<char>)
    requires
        flat_of_obj(m).contains_key(k),
    ensures
        is_leaf(flat_of_obj(m)[k]),
{
    lemma_emits_leaves_entries(m.entries@, Seq::empty());
    lemma_pairs_map_values_leaves(emits_of_entries(m.entries@, Seq::empty()), k);
}

/// Idempotence on the output: a well-formed object whose mapping is the
/// flattening of some object — as every result of
/// [`crate::flatten::map_to_dot_map`] is — flattens to itself.
pub proof fn lemma_reflatten_output(m: DotMap, d: DotMap)
    requires
        d.wf(),
        d.as_map() == flat_of_obj(m),
    ensures
        flat_of_obj(d) == d.as_map(),
{
    assert forall|i: int| 0 <= i < d.entries@.len() implies is_leaf(d.entries@[i].val) by {
        let ps = entry_pairs(d.entries@);
        assert(ps[i].0 == d.entries@[i].key@ && ps[i].1 == d.entries@[i].val);
        lemma_pairs_map_last_match(ps, i);
        lemma_flat_values_are_leaves(m, d.entries@[i].key@);
    }
    lemma_flatten_flat_identity(d);
}

proof fn lemma_emits_are_paths_value(v: Value, segs: Seq<Seq<char>>, j: int)
    requires
        0 <= j < emits_of_value(v, segs).len(),
    ensures
        exists|p: Seq<Seq<char>>, leaf: Value|
            leads_to(v, p, leaf) && emits_of_value(v, segs)[j] == (join_segs(segs + p), leaf),
    decreases v,
{
    match v {
        Value::Arr(a) => {
            lemma_emits_are_paths_arr(a@, segs, j);
            let (p, leaf) = choose|p: Seq<Seq<char>>, leaf: Value|
                leads_to_arr(a@, p, leaf) && emits_of_arr(a@, segs)[j] == (
                join_segs(segs + p),
                leaf,
                );
            assert(leads_to(v, p, leaf));
            assert(emits_of_value(v, segs)[j] == (join_segs(segs + p), leaf));
        },
        Value::Obj(m) => {
            lemma_emits_are_paths_entries(m.entries@, segs, j);
            let (p, leaf) = choose|p: Seq<Seq<char>>, leaf: Value|
                leads_to_entries(m.entries@, p, leaf) && emits_of_entries(m.entries@, segs)[j] == (
                join_segs(segs + p),
                leaf,
                );
            assert(leads_to(v, p, leaf));
            assert(emits_of_value(v, segs)[j] == (join_segs(segs + p), leaf));
        },
        _ => {
            let p0 = Seq::<Seq<char>>::empty();
            assert(segs + p0 =~= segs);
            assert(leads_to(v, p0, v));
            assert(emits_of_value(v, segs)[j] == (join_segs(segs + p0), v));
        },
    }
}

proof fn lemma_emits_are_paths_entries(es: Seq<Entry>, segs: Seq<Seq<char>>, j: int)
    requires
        0 <= j < emits_of_entries(es, segs).len(),
    ensures
        exists|p: Seq<Seq<char>>, leaf: Value|
            leads_to_entries(es, p, leaf) && emits_of_entries(es, segs)[j] == (
            join_segs(segs + p),
            leaf,
            ),
    decreases es,
{
    let prefix = emits_of_entries(es.drop_last(), segs);
    let here = emits_of_value(es.last().val, segs.push(es.last().key@));
    if j < prefix.len() {
        lemma_emits_are_paths_entries(es.drop_last(), segs, j);
        let (p, leaf) = choose|p: Seq<Seq<char>>, leaf: Value|
            leads_to_entries(es.drop_last(), p, leaf) && prefix[j] == (join_segs(segs + p), leaf);
        let i0 = choose|i: int|
            0 <= i < es.drop_last().len() && p.len() > 0 && p[0] == es.drop_last()[i].key@
                && leads_to(es.drop_last()[i].val, p.drop_first(), leaf);
        assert(es[i0] == es.drop_last()[i0]);
        assert(leads_to_entries(es, p, leaf));
        assert(emits_of_entries(es, segs)[j] == prefix[j]);
    } else {
        lemma_emits_are_paths_value(es.last().val, segs.push(es.last().key@), j - prefix.len());
        let (p, leaf) = choose|p: Seq<Seq<char>>, leaf: Value|
            leads_to(es.last().val, p, leaf) && here[j - prefix.len()] == (
            join_segs(segs.push(es.last().key@) + p),
            leaf,
            );
        let p2 = seq![es.last().key@] + p;
        assert(p2[0] == es.last().key@);
        assert(p2.drop_first() =~= p);
        let i0 = es.len() - 1;
        assert(p2[0] == es[i0].key@ && leads_to(es[i0].val, p2.drop_first(), leaf));
        assert(leads_to_entries(es, p2, leaf));
        assert(segs + p2 =~= segs.push(es.last().key@) + p);
        assert(emits_of_entries(es, segs)[j] == here[j - prefix.len()]);
    }
}

proof fn lemma_emits_are_paths_arr(vs: Seq<Value>, segs: Seq<Seq<char>>, j: int)
    requires
        0 <= j < emits_of_arr(vs, segs).len(),
    ensures
        exists|p: Seq<Seq<char>>, leaf: Value|
            leads_to_arr(vs, p, leaf) && emits_of_arr(vs, segs)[j] == (join_segs(segs + p), leaf),
    decreases vs,
{
    let prefix = emits_of_arr(vs.drop_last(), segs);
    let lastseg = dec_str((vs.len() - 1) as nat);
    let here = emits_of_value(vs.last(), segs.push(lastseg));
    if j < prefix.len() {
        lemma_emits_are_paths_arr(vs.drop_last(), segs, j);
        let (p, leaf) = choose|p: Seq<Seq<char>>, leaf: Value|
            leads_to_arr(vs.drop_last(), p, leaf) && prefix[j] == (join_segs(segs + p), leaf);
        let i0 = choose|i: int|
            0 <= i < vs.drop_last().len() && p.len() > 0 && p[0] == dec_str(i as nat) && leads_to(
                vs.drop_last()[i],
                p.drop_first(),
                leaf,
            );
        assert(vs[i0] == vs.drop_last()[i0]);
        assert(leads_to_arr(vs, p, leaf));
        assert(emits_of_arr(vs, segs)[j] == prefix[j]);
    } else {
        lemma_emits_are_paths_value(vs.last(), segs.push(lastseg), j - prefix.len());
        let (p, leaf) = choose|p: Seq<Seq<char>>, leaf: Value|
            leads_to(vs.last(), p, leaf) && here[j - prefix.len()] == (
            join_segs(segs.push(lastseg) + p),
            leaf,
            );
        let p2 = seq![lastseg] + p;
        assert(p2[0] == lastseg);
        assert(p2.drop_first() =~= p);
        let i0 = vs.len() - 1;
        assert(p2[0] == dec_str(i0 as nat) && leads_to(vs[i0], p2.drop_first(), leaf));
        assert(leads_to_arr(vs, p2, leaf));
        assert(segs + p2 =~= segs.push(lastseg) + p);
        assert(emits_of_arr(vs, segs)[j] == here[j - prefix.len()]);
    }
}

proof fn lemma_last_occurrence(ps: Seq<(Seq<char>, Value)>, k: Seq<char>)
    requires
        exists|j: int| 0 <= j < ps.len() && ps[j].0 == k,
    ensures
        exists|j: int|
            0 <= j < ps.len() && ps[j].0 == k && (forall|l: int| j < l < ps.len() ==> ps[l].0 != k),
    decreases ps.len(),
{
    if ps.last().0 == k {
        let j = ps.len() - 1;
        assert(ps[j].0 == k && (forall|l: int| j < l < ps.len() ==> ps[l].0 != k));
    } else {
        let j0 = choose|j: int| 0 <= j < ps.len() && ps[j].0 == k;
        assert(ps.drop_last()[j0] == ps[j0]);
        lemma_last_occurrence(ps.drop_last(), k);
        let j = choose|j: int|
            0 <= j < ps.drop_last().len() && ps.drop_last()[j].0 == k && (forall|l: int|
                j < l < ps.drop_last().len() ==> ps.drop_last()[l].0 != k);
        assert(ps[j].0 == k);
        assert forall|l: int| j < l < ps.len() - 1 implies ps[l].0 != k by {
            assert(ps.drop_last()[l] == ps[l]);
        }
    }
}

/// Path correctness: every key of an object's flat mapping is the
/// dot-join of the segment sequence of some root-to-leaf path of the
/// object, and maps to the leaf that path reaches.
pub proof fn lemma_path_correctness(m: DotMap, k: Seq<char>)
    requires
        flat_of_obj(m).contains_key(k),
    ensures
        exists|p: Seq<Seq<char>>, leaf: Value|
            leads_to(Value::Obj(m), p, leaf) && k == join_segs(p) && flat_of_obj(m)[k] == leaf,
{
    let e = emits_of_entries(m.entries@, Seq::empty());
    lemma_pairs_map_contains(e, k);
    lemma_last_occurrence(e, k);
    let j = choose|j: int|
        0 <= j < e.len() && e[j].0 == k && (forall|l: int| j < l < e.len() ==> e[l].0 != k);
    lemma_pairs_map_last_match(e, j);
    lemma_emits_are_paths_entries(m.entries@, Seq::empty(), j);
    let (p, leaf) = choose|p: Seq<Seq<char>>, leaf: Value|
        leads_to_entries(m.entries@, p, leaf) && e[j] == (
        join_segs(Seq::<Seq<char>>::empty() + p),
        leaf,
        );
    assert(Seq::<Seq<char>>::empty() + p =~= p);
    assert(leads_to(Value::Obj(m), p, leaf));
    assert(k == join_segs(p));
    assert(flat_of_obj(m)[k] == leaf);
}

} // verus!
