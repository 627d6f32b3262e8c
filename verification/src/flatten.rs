//! The flattener: the recursive walk and its three entry points.

use vstd::prelude::*;
use vstd::string::StringExecFns;

use crate::model::{
    dec_digit, dec_str, emits_of_arr, emits_of_entries, emits_of_value, flat_of_arr, flat_of_obj,
    is_leaf, join_segs, lemma_pairs_map_concat, pairs_map, views_of,
};
use crate::value::{DotMap, Entry, Value};

verus! {

/// The one-character string of the decimal digit `d`.
fn digit_string(d: usize) -> (s: String)
    requires
        d < 10,
    ensures
        s@ == seq![dec_digit(d as nat)],
{
    let r: &str = if d == 0 {
        "0"
    } else if d == 1 {
        "1"
    } else if d == 2 {
        "2"
    } else if d == 3 {
        "3"
    } else if d == 4 {
        "4"
    } else if d == 5 {
        "5"
    } else if d == 6 {
        "6"
    } else if d == 7 {
        "7"
    } else if d == 8 {
        "8"
    } else {
        "9"
    };
    proof {
        reveal_strlit("0");
        reveal_strlit("1");
        reveal_strlit("2");
        reveal_strlit("3");
        reveal_strlit("4");
        reveal_strlit("5");
        reveal_strlit("6");
        reveal_strlit("7");
        reveal_strlit("8");
        reveal_strlit("9");
        assert(r@ =~= seq![dec_digit(d as nat)]);
    }
    r.to_owned()
}

/// The decimal text of `n`: no sign, no padding.
fn dec_string(n: usize) -> (s: String)
    ensures
        s@ == dec_str(n as nat),
    decreases n,
{
    if n < 10 {
        digit_string(n)
    } else {
        let mut s = dec_string(n / 10);
        let d = digit_string(n % 10);
        s.append(d.as_str());
        proof {
            assert((n / 10) as nat == (n as nat) / 10);
            assert((n % 10) as nat == (n as nat) % 10);
            assert(dec_str((n as nat) / 10) + seq![dec_digit((n as nat) % 10)] =~= dec_str(
                (n as nat) / 10,
            ).push(dec_digit((n as nat) % 10)));
        }
        s
    }
}

/// The segments joined with a single `.`.
#[verifier::loop_isolation(false)]
fn join_path(segs: &Vec<String>) -> (s: String)
    ensures
        s@ == join_segs(views_of(segs@)),
{
    let mut s = String::new();
    let mut i: usize = 0;
    while i < segs.len()
        invariant
            i <= segs@.len(),
            s@ == join_segs(views_of(segs@).subrange(0, i as int)),
        decreases segs@.len() - i,
    {
        if i > 0 {
            s.append(".");
        }
        s.append(segs[i].as_str());
        proof {
            reveal_strlit(".");
            let vs = views_of(segs@);
            assert(vs.subrange(0, i + 1).drop_last() =~= vs.subrange(0, i as int));
            assert(vs.subrange(0, i + 1).last() == segs@[i as int]@);
            if i == 0 {
                assert(Seq::<char>::empty() + segs@[0]@ =~= segs@[0]@);
            } else {
                assert("."@ =~= seq!['.']);
            }
        }
        i += 1;
    }
    proof {
        assert(views_of(segs@).subrange(0, segs@.len() as int) =~= views_of(segs@));
    }
    s
}

/// Insert one scalar leaf, keyed by the joined path.
fn emit_leaf(leaf: Value, segs: &Vec<String>, dest: &mut DotMap)
    requires
        old(dest).wf(),
        is_leaf(leaf),
    ensures
        final(dest).wf(),
        final(dest).as_map() == old(dest).as_map().union_prefer_right(
            pairs_map(emits_of_value(leaf, views_of(segs@))),
        ),
{
    let path = join_path(segs);
    let ghost pathv = path@;
    dest.insert(path, leaf);
    proof {
        let e = emits_of_value(leaf, views_of(segs@));
        assert(e =~= seq![(join_segs(views_of(segs@)), leaf)]);
        assert(e.drop_last() =~= Seq::<(Seq<char>, Value)>::empty());
        assert(pairs_map(Seq::<(Seq<char>, Value)>::empty()) =~= Map::<Seq<char>, Value>::empty());
        assert(pairs_map(e) =~= Map::<Seq<char>, Value>::empty().insert(pathv, leaf));
        assert(old(dest).as_map().insert(pathv, leaf) =~= old(dest).as_map().union_prefer_right(
            pairs_map(e),
        ));
    }
}

/// Walk one value standing at the position named by `segs`.
fn walk_value(v: &Value, segs: &mut Vec<String>, dest: &mut DotMap)
    requires
        old(dest).wf(),
    ensures
        final(dest).wf(),
        final(segs)@ == old(segs)@,
        final(dest).as_map() == old(dest).as_map().union_prefer_right(
            pairs_map(emits_of_value(*v, views_of(old(segs)@))),
        ),
    decreases *v,
{
    match v {
        Value::Arr(a) => {
            walk_arr(a, segs, dest);
        },
        Value::Obj(m) => {
            walk_entries(&m.entries, segs, dest);
        },
        Value::Null => {
            emit_leaf(Value::Null, segs, dest);
        },
        Value::Bool(b) => {
            emit_leaf(Value::Bool(*b), segs, dest);
        },
        Value::Num(s) => {
            emit_leaf(Value::Num(s.clone()), segs, dest);
        },
        Value::Text(s) => {
            emit_leaf(Value::Text(s.clone()), segs, dest);
        },
    }
}

/// Walk object entries in order, each child at `segs` extended by its key.
#[verifier::loop_isolation(false)]
fn walk_entries(es: &Vec<Entry>, segs: &mut Vec<String>, dest: &mut DotMap)
    requires
        old(dest).wf(),
    ensures
        final(dest).wf(),
        final(segs)@ == old(segs)@,
        final(dest).as_map() == old(dest).as_map().union_prefer_right(
            pairs_map(emits_of_entries(es@, views_of(old(segs)@))),
        ),
    decreases es@,
{
    let ghost svs = views_of(old(segs)@);
    let mut i: usize = 0;
    while i < es.len()
        invariant
            i <= es@.len(),
            dest.wf(),
            segs@ == old(segs)@,
            dest.as_map() == old(dest).as_map().union_prefer_right(
                pairs_map(emits_of_entries(es@.subrange(0, i as int), svs)),
            ),
        decreases es@.len() - i,
    {
        let key = es[i].key.clone();
        let ghost keyv = key@;
        let ghost segs_before = segs@;
        segs.push(key);
        proof {
            assert(views_of(segs@) =~= svs.push(keyv));
        }
        walk_value(&es[i].val, segs, dest);
        let _ = segs.pop();
        proof {
            assert(segs@ =~= segs_before);
            let sub1 = es@.subrange(0, i + 1);
            assert(sub1.drop_last() =~= es@.subrange(0, i as int));
            assert(sub1.last() == es@[i as int]);
            let prefix = emits_of_entries(es@.subrange(0, i as int), svs);
            let here = emits_of_value(es@[i as int].val, svs.push(keyv));
            lemma_pairs_map_concat(prefix, here);
            assert(emits_of_entries(sub1, svs) == prefix + here);
            assert(old(dest).as_map().union_prefer_right(pairs_map(prefix)).union_prefer_right(
                pairs_map(here),
            ) =~= old(dest).as_map().union_prefer_right(
                pairs_map(prefix).union_prefer_right(pairs_map(here)),
            ));
        }
        i += 1;
    }
    proof {
        assert(es@.subrange(0, es@.len() as int) =~= es@);
    }
}

/// Walk array elements in order, each at `segs` extended by its decimal index.
#[verifier::loop_isolation(false)]
fn walk_arr(vs: &Vec<Value>, segs: &mut Vec<String>, dest: &mut DotMap)
    requires
        old(dest).wf(),
    ensures
        final(dest).wf(),
        final(segs)@ == old(segs)@,
        final(dest).as_map() == old(dest).as_map().union_prefer_right(
            pairs_map(emits_of_arr(vs@, views_of(old(segs)@))),
        ),
    decreases vs@,
{
    let ghost svs = views_of(old(segs)@);
    let mut i: usize = 0;
    while i < vs.len()
        invariant
            i <= vs@.len(),
            dest.wf(),
            segs@ == old(segs)@,
            dest.as_map() == old(dest).as_map().union_prefer_right(
                pairs_map(emits_of_arr(vs@.subrange(0, i as int), svs)),
            ),
        decreases vs@.len() - i,
    {
        let idx = dec_string(i);
        let ghost idxv = idx@;
        let ghost segs_before = segs@;
        segs.push(idx);
        proof {
            assert(views_of(segs@) =~= svs.push(idxv));
        }
        walk_value(&vs[i], segs, dest);
        let _ = segs.pop();
        proof {
            assert(segs@ =~= segs_before);
            let sub1 = vs@.subrange(0, i + 1);
            assert(sub1.drop_last() =~= vs@.subrange(0, i as int));
            assert(sub1.last() == vs@[i as int]);
            let prefix = emits_of_arr(vs@.subrange(0, i as int), svs);
            let here = emits_of_value(vs@[i as int], svs.push(idxv));
            lemma_pairs_map_concat(prefix, here);
            assert(emits_of_arr(sub1, svs) == prefix + here);
            assert(old(dest).as_map().union_prefer_right(pairs_map(prefix)).union_prefer_right(
                pairs_map(here),
            ) =~= old(dest).as_map().union_prefer_right(
                pairs_map(prefix).union_prefer_right(pairs_map(here)),
            ));
        }
        i += 1;
    }
    proof {
        assert(vs@.subrange(0, vs@.len() as int) =~= vs@);
    }
}

/// Create a flat dot map from a deep object.
///
/// The result has one entry per scalar leaf reachable from `src`, keyed by
/// the `.`-joined path of object keys and decimal array indices from the
/// root to that leaf. When two leaves compute the same path (a key that
/// itself contains `.`, or a key that coincides with an array index), the
/// later-visited leaf silently wins — a sharp edge inherited from the path
/// convention, not a designed precedence rule.
pub fn map_to_dot_map(src: &DotMap) -> (dest: DotMap)
    ensures
        dest.wf(),
        dest.as_map() == flat_of_obj(*src),
{
    let mut dest = DotMap::new();
    let mut segs: Vec<String> = Vec::new();
    walk_entries(&src.entries, &mut segs, &mut dest);
    proof {
        assert(views_of(Seq::<String>::empty()) =~= Seq::<Seq<char>>::empty());
        assert(Map::<Seq<char>, Value>::empty().union_prefer_right(
            pairs_map(emits_of_entries(src.entries@, Seq::empty())),
        ) =~= flat_of_obj(*src));
    }
    dest
}

/// Create a flat dot map from a deep array.
///
/// Equivalent to flattening the object whose keys are the decimal strings
/// `"0"`, `"1"`, ... of the element indices, in order.
pub fn arr_to_dot_map(src: &Vec<Value>) -> (dest: DotMap)
    ensures
        dest.wf(),
        dest.as_map() == flat_of_arr(src@),
{
    let mut dest = DotMap::new();
    let mut segs: Vec<String> = Vec::new();
    walk_arr(src, &mut segs, &mut dest);
    proof {
        assert(views_of(Seq::<String>::empty()) =~= Seq::<Seq<char>>::empty());
        assert(Map::<Seq<char>, Value>::empty().union_prefer_right(
            pairs_map(emits_of_arr(src@, Seq::empty())),
        ) =~= flat_of_arr(src@));
    }
    dest
}

/// Flatten an array or object into an object holding its flat dot map;
/// return any scalar unchanged.
pub fn value_to_dot(src: &Value) -> (r: Value)
    ensures
        is_leaf(*src) ==> r == *src,
        (*src) matches Value::Arr(a) ==> (r matches Value::Obj(d) && d.wf() && d.as_map()
            == flat_of_arr(a@)),
        (*src) matches Value::Obj(m) ==> (r matches Value::Obj(d) && d.wf() && d.as_map()
            == flat_of_obj(m)),
{
    match src {
        Value::Arr(a) => Value::Obj(arr_to_dot_map(a)),
        Value::Obj(m) => Value::Obj(map_to_dot_map(m)),
        Value::Null => Value::Null,
        Value::Bool(b) => Value::Bool(*b),
        Value::Num(n) => Value::Num(n.clone()),
        Value::Text(s) => Value::Text(s.clone()),
    }
}

} // verus!
