use vstd::prelude::*;

use crate::model::{
    distinct_keys, entry_pairs, lemma_pairs_map_contains, lemma_pairs_map_last_match,
    lemma_pairs_map_update, pairs_map,
};

verus! {

/// A structured-data tree value.
///
/// Scalars (`Null`, `Bool`, `Num`, `Text`) are the leaves of the tree;
/// `Arr` and `Obj` are the containers the flattener expands.
#[derive(Debug, PartialEq, Eq)]
pub enum Value {
    /// The null scalar.
    Null,
    /// A boolean scalar.
    Bool(bool),
    /// A numeric scalar, carried as the decimal text the parser produced,
    /// so that any number round-trips unchanged in value and representation.
    Num(String),
    /// A string scalar.
    Text(String),
    /// An ordered sequence of child values.
    Arr(Vec<Value>),
    /// An object: key/value entries in insertion order.
    Obj(DotMap),
}

/// One key/value entry of an object or of a flat mapping.
#[derive(Debug, PartialEq, Eq)]
pub struct Entry {
    pub key: String,
    pub val: Value,
}

/// An ordered mapping from string keys to tree values.
///
/// Entries keep their insertion order. A `DotMap` built through
/// [`DotMap::new`] and [`DotMap::insert`] has pairwise-distinct keys
/// ([`DotMap::wf`]); inserting an existing key overwrites its value in
/// place, so on colliding keys the later write wins.
#[derive(Debug, PartialEq, Eq)]
pub struct DotMap {
    pub entries: Vec<Entry>,
}

impl DotMap {
    /// The mapping this `DotMap` holds; on duplicate keys the later entry wins.
    pub open spec fn as_map(self) -> Map<Seq<char>, Value> {
        pairs_map(entry_pairs(self.entries@))
    }

    /// Well-formed: the keys are pairwise distinct.
    pub open spec fn wf(self) -> bool {
        distinct_keys(entry_pairs(self.entries@))
    }

    /// An empty mapping.
    pub fn new() -> (d: DotMap)
        ensures
            d.entries@.len() == 0,
            d.wf(),
            d.as_map() == Map::<Seq<char>, Value>::empty(),
    {
        DotMap { entries: Vec::new() }
    }

    /// The number of entries.
    pub fn len(&self) -> (n: usize)
        ensures
            n == self.entries@.len(),
    {
        self.entries.len()
    }

    /// Insert `(key, v)`. An existing entry with the same key is
    /// overwritten in place; otherwise the entry is appended.
    pub fn insert(&mut self, key: String, v: Value)
        requires
            old(self).wf(),
        ensures
            final(self).wf(),
            final(self).as_map() == old(self).as_map().insert(key@, v),
            old(self).as_map().contains_key(key@) ==> final(self).entries@.len() == old(
                self,
            ).entries@.len(),
            !old(self).as_map().contains_key(key@) ==> final(self).entries@.len() == old(
                self,
            ).entries@.len() + 1,
    {
        let ghost kview = key@;
        let ghost ps = entry_pairs(self.entries@);
        let mut i: usize = 0;
        while i < self.entries.len()
            invariant
                i <= self.entries@.len(),
                self.entries@ == old(self).entries@,
                forall|j: int| 0 <= j < i ==> self.entries@[j].key@ != kview,
                kview == key@,
                old(self).wf(),
                ps == entry_pairs(old(self).entries@),
            decreases self.entries@.len() - i,
        {
            if self.entries[i].key.eq(&key) {
                self.entries[i] = Entry { key, val: v };
                proof {
                    assert(ps[i as int].0 == kview);
                    lemma_pairs_map_update(ps, i as int, (kview, v));
                    assert(entry_pairs(self.entries@) =~= ps.update(i as int, (kview, v)));
                    lemma_pairs_map_contains(ps, kview);
                }
                return ;
            }
            i += 1;
        }
        self.entries.push(Entry { key, val: v });
        proof {
            let q = ps.push((kview, v));
            assert(entry_pairs(self.entries@) =~= q);
            assert(q.drop_last() =~= ps);
            assert(forall|j: int| 0 <= j < ps.len() ==> ps[j].0 != kview);
            assert forall|a: int, b: int| 0 <= a < b < q.len() implies q[a].0 != q[b].0 by {
                if b == ps.len() {
                    assert(q[a] == ps[a]);
                } else {
                    assert(q[a] == ps[a]);
                    assert(q[b] == ps[b]);
                }
            }
            lemma_pairs_map_contains(ps, kview);
        }
    }

    /// Look a key up. When several entries carry the key, the latest one
    /// is returned, matching [`DotMap::as_map`].
    pub fn get(&self, key: &String) -> (r: Option<&Value>)
        ensures
            match r {
                Some(v) => self.as_map().contains_key(key@) && *v == self.as_map()[key@],
                None => !self.as_map().contains_key(key@),
            },
    {
        let mut i: usize = self.entries.len();
        while i > 0
            invariant
                i <= self.entries@.len(),
                forall|j: int| i <= j < self.entries@.len() ==> self.entries@[j].key@ != key@,
            decreases i,
        {
            i -= 1;
            if self.entries[i].key.eq(key) {
                proof {
                    assert(entry_pairs(self.entries@)[i as int].0 == key@);
                    lemma_pairs_map_last_match(entry_pairs(self.entries@), i as int);
                }
                return Some(&self.entries[i].val);
            }
        }
        proof {
            lemma_pairs_map_contains(entry_pairs(self.entries@), key@);
        }
        None
    }
}

} // verus!
