//! A small map keyed by strings.
//!
//! The entries are kept in a vector in which no key occurs twice. The view
//! of the map is the mathematical map from key text to value view.

use crate::text::str_eq;
use vstd::prelude::*;

verus! {

/// One key with its value.
#[derive(Debug)]
pub struct Entry<V> {
    pub key: String,
    pub value: V,
}

/// A map from strings to values of type `V`.
#[derive(Debug)]
pub struct StrMap<V> {
    entries: Vec<Entry<V>>,
}

/// No key occurs twice among the entries.
pub open spec fn unique_keys<V>(es: Seq<Entry<V>>) -> bool {
    forall|i: int, j: int| 0 <= i < j < es.len() ==> es[i].key@ != es[j].key@
}

/// The map that the entries denote: each key bound to its value.
pub open spec fn entries_map<V: View>(es: Seq<Entry<V>>) -> Map<Seq<char>, V::V>
    decreases es.len(),
{
    if es.len() == 0 {
        Map::empty()
    } else {
        entries_map(es.drop_last()).insert(es.last().key@, es.last().value@)
    }
}

proof fn lemma_entries_get<V: View>(es: Seq<Entry<V>>, i: int)
    requires
        unique_keys(es),
        0 <= i < es.len(),
    ensures
        entries_map(es).contains_key(es[i].key@),
        entries_map(es)[es[i].key@] == es[i].value@,
    decreases es.len(),
{
    if i < es.len() - 1 {
        assert(es.drop_last()[i] == es[i]);
        lemma_entries_get(es.drop_last(), i);
    }
}

proof fn lemma_entries_absent<V: View>(es: Seq<Entry<V>>, key: Seq<char>)
    requires
        forall|i: int| 0 <= i < es.len() ==> (#[trigger] es[i]).key@ != key,
    ensures
        !entries_map(es).contains_key(key),
    decreases es.len(),
{
    if es.len() > 0 {
        assert forall|i: int| 0 <= i < es.drop_last().len() implies (#[trigger] es.drop_last()[i]).key@
            != key by {
            assert(es.drop_last()[i] == es[i]);
        }
        lemma_entries_absent(es.drop_last(), key);
    }
}

proof fn lemma_entries_update<V: View>(es: Seq<Entry<V>>, i: int, e: Entry<V>)
    requires
        unique_keys(es),
        0 <= i < es.len(),
        e.key@ == es[i].key@,
    ensures
        unique_keys(es.update(i, e)),
        entries_map(es.update(i, e)) == entries_map(es).insert(e.key@, e.value@),
    decreases es.len(),
{
    let us = es.update(i, e);
    if i == es.len() - 1 {
        assert(us.drop_last() =~= es.drop_last());
        assert(entries_map(us) =~= entries_map(es).insert(e.key@, e.value@));
    } else {
        assert(us.drop_last() =~= es.drop_last().update(i, e));
        assert(es.drop_last()[i] == es[i]);
        lemma_entries_update(es.drop_last(), i, e);
        assert(es.last().key@ != e.key@);
        assert(entries_map(us) =~= entries_map(es).insert(e.key@, e.value@));
    }
}

impl<V: View> View for StrMap<V> {
    type V = Map<Seq<char>, V::V>;

    closed spec fn view(&self) -> Map<Seq<char>, V::V> {
        entries_map(self.entries@)
    }
}

impl<V> StrMap<V> {
    #[verifier::type_invariant]
    spec fn no_key_twice(&self) -> bool {
        unique_keys(self.entries@)
    }
}

impl<V: View> StrMap<V> {
    /// The empty map.
    pub fn new() -> (m: Self)
        ensures
            m@ == Map::<Seq<char>, V::V>::empty(),
    {
        StrMap { entries: Vec::new() }
    }

    /// The number of keys.
    pub fn len(&self) -> (n: usize)
        ensures
            n == self@.dom().len(),
            self@.dom().finite(),
    {
        proof {
            use_type_invariant(self);
            lemma_entries_len(self.entries@);
        }
        self.entries.len()
    }

    /// The value bound to `key`, if there is one.
    pub fn get(&self, key: &str) -> (r: Option<&V>)
        ensures
            match r {
                Some(v) => self@.contains_key(key@) && self@[key@] == v@,
                None => !self@.contains_key(key@),
            },
    {
        proof {
            use_type_invariant(self);
        }
        let mut i: usize = 0;
        while i < self.entries.len()
            invariant
                i <= self.entries.len(),
                unique_keys(self.entries@),
                forall|j: int| 0 <= j < i ==> (#[trigger] self.entries@[j]).key@ != key@,
            decreases self.entries.len() - i,
        {
            if str_eq(self.entries[i].key.as_str(), key) {
                proof {
                    lemma_entries_get(self.entries@, i as int);
                }
                return Some(&self.entries[i].value);
            }
            i += 1;
        }
        proof {
            lemma_entries_absent(self.entries@, key@);
        }
        None
    }

    /// Whether `key` is bound.
    pub fn contains_key(&self, key: &str) -> (r: bool)
        ensures
            r == self@.contains_key(key@),
    {
        self.get(key).is_some()
    }

    /// Binds `key` to `value`; an earlier binding of `key` is overwritten.
    pub fn insert(&mut self, key: String, value: V)
        ensures
            final(self)@ == old(self)@.insert(key@, value@),
    {
        proof {
            use_type_invariant(&*self);
        }
        let mut entries: Vec<Entry<V>> = Vec::new();
        core::mem::swap(&mut self.entries, &mut entries);
        let ghost before = entries@;
        let n = entries.len();
        let mut i: usize = 0;
        while i < n && !str_eq(entries[i].key.as_str(), key.as_str())
            invariant
                i <= n == entries.len(),
                entries@ == before,
                forall|j: int| 0 <= j < i ==> (#[trigger] entries@[j]).key@ != key@,
            decreases n - i,
        {
            i += 1;
        }
        let entry = Entry { key, value };
        if i < n {
            proof {
                lemma_entries_update(before, i as int, entry);
            }
            entries[i] = entry;
        } else {
            proof {
                assert(before.push(entry).drop_last() =~= before);
            }
            entries.push(entry);
        }
        self.entries = entries;
    }
}

proof fn lemma_entries_len<V: View>(es: Seq<Entry<V>>)
    requires
        unique_keys(es),
    ensures
        entries_map(es).dom().finite(),
        entries_map(es).dom().len() == es.len(),
    decreases es.len(),
{
    if es.len() > 0 {
        assert forall|i: int| 0 <= i < es.drop_last().len() implies (#[trigger] es.drop_last()[i]).key@
            != es.last().key@ by {
            assert(es.drop_last()[i] == es[i]);
        }
        lemma_entries_absent(es.drop_last(), es.last().key@);
        lemma_entries_len(es.drop_last());
    }
}

} // verus!
