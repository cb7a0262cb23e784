//! A map from strings to values that remembers the order in which its keys
//! first arrived.

use vstd::prelude::*;

verus! {

/// An insertion-ordered map keyed by strings. No key occurs twice.
#[derive(Debug)]
pub struct StringMap<V> {
    entries: Vec<(String, V)>,
}

/// No two entries have the same key.
spec fn distinct_keys<V>(entries: Seq<(String, V)>) -> bool {
    forall|i: int, j: int|
        0 <= i < j < entries.len() ==> (#[trigger] entries[i]).0@ != (#[trigger] entries[j]).0@
}

/// The map that a sequence of entries stands for.
spec fn model_of<V: View>(entries: Seq<(String, V)>) -> Map<Seq<char>, V::V> {
    Map::new(
        |k: Seq<char>| exists|i: int| 0 <= i < entries.len() && (#[trigger] entries[i]).0@ == k,
        |k: Seq<char>|
            entries[choose|i: int| 0 <= i < entries.len() && (#[trigger] entries[i]).0@ == k].1@,
    )
}

/// With distinct keys, each entry's key maps to that entry's value.
proof fn lemma_model_entry<V: View>(entries: Seq<(String, V)>, i: int)
    requires
        distinct_keys(entries),
        0 <= i < entries.len(),
    ensures
        model_of(entries).contains_key(entries[i].0@),
        model_of(entries)[entries[i].0@] == entries[i].1@,
{
    let k = entries[i].0@;
    let c = choose|c: int| 0 <= c < entries.len() && (#[trigger] entries[c]).0@ == k;
    assert(c == i) by {
        if c < i {
            assert(entries[c].0@ != entries[i].0@);
        } else if i < c {
            assert(entries[i].0@ != entries[c].0@);
        }
    }
}

/// Index of the entry that holds `key`.
fn position<V>(entries: &Vec<(String, V)>, key: &String) -> (r: Option<usize>)
    ensures
        match r {
            Some(i) => i < entries.len() && entries[i as int].0@ == key@,
            None => forall|j: int| 0 <= j < entries.len() ==> (#[trigger] entries[j]).0@ != key@,
        },
{
    let mut i: usize = 0;
    while i < entries.len()
        invariant
            forall|j: int| 0 <= j < i ==> (#[trigger] entries[j]).0@ != key@,
        decreases entries.len() - i,
    {
        if entries[i].0 == *key {
            return Some(i);
        }
        i += 1;
    }
    None
}

impl<V> StringMap<V> {
    /// No key occurs twice.
    #[verifier::type_invariant]
    pub closed spec fn well_formed(&self) -> bool {
        distinct_keys(self.entries@)
    }
}

impl<V: View> View for StringMap<V> {
    type V = Map<Seq<char>, V::V>;

    /// The map from keys to the views of the values.
    closed spec fn view(&self) -> Map<Seq<char>, V::V> {
        model_of(self.entries@)
    }
}

impl<V: View> StringMap<V> {
    /// The keys, in the order in which they first arrived.
    pub closed spec fn order(&self) -> Seq<Seq<char>> {
        Seq::new(self.entries.len() as nat, |i: int| self.entries[i].0@)
    }

    /// The values, each at the position of its key in `order`.
    pub closed spec fn items(&self) -> Seq<V::V> {
        Seq::new(self.entries.len() as nat, |i: int| self.entries[i].1@)
    }


    /// How `order` and `items` relate to the map: the keys are distinct, they
    /// are the map's domain, and each item is the value of its key.
    pub proof fn lemma_order(&self)
        requires
            self.well_formed(),
        ensures
            self.order().len() == self.items().len(),
            forall|i: int, j: int|
                0 <= i < j < self.order().len() ==> (#[trigger] self.order()[i]) != (
                #[trigger] self.order()[j]),
            forall|i: int|
                0 <= i < self.order().len() ==> self@.contains_key(#[trigger] self.order()[i])
                    && self@[self.order()[i]] == self.items()[i],
            forall|k: Seq<char>| #[trigger]
                self@.contains_key(k) ==> exists|i: int|
                    0 <= i < self.order().len() && #[trigger] self.order()[i] == k,
            self@.dom().finite(),
            self@.len() == self.order().len(),
    {
        assert forall|i: int| 0 <= i < self.order().len() implies self@.contains_key(
            #[trigger] self.order()[i],
        ) && self@[self.order()[i]] == self.items()[i] by {
            lemma_model_entry(self.entries@, i);
        }
        assert forall|k: Seq<char>| #[trigger] self@.contains_key(k) implies exists|i: int|
            0 <= i < self.order().len() && #[trigger] self.order()[i] == k by {
            let i = choose|i: int|
                0 <= i < self.entries.len() && (#[trigger] self.entries[i]).0@ == k;
            assert(self.order()[i] == k);
        }
        assert(self.order().no_duplicates()) by {
            assert forall|i: int, j: int|
                0 <= i < self.order().len() && 0 <= j < self.order().len() && i != j implies self.order()[i]
                != self.order()[j] by {
                if i < j {
                    assert(self.entries[i].0@ != self.entries[j].0@);
                } else {
                    assert(self.entries[j].0@ != self.entries[i].0@);
                }
            }
        }
        self.order().unique_seq_to_set();
        vstd::seq_lib::seq_to_set_is_finite(self.order());
        assert(self@.dom() =~= self.order().to_set()) by {
            assert forall|k: Seq<char>| self@.dom().contains(k) == self.order().to_set().contains(
                k,
            ) by {
                if self@.dom().contains(k) {
                    let i = choose|i: int|
                        0 <= i < self.entries.len() && (#[trigger] self.entries[i]).0@ == k;
                    assert(self.order()[i] == k);
                }
                if self.order().to_set().contains(k) {
                    let i = choose|i: int| 0 <= i < self.order().len() && self.order()[i] == k;
                    assert(self.entries[i].0@ == k);
                }
            }
        }
    }

    /// The map that holds nothing.
    pub fn new() -> (r: Self)
        ensures
            r@ == Map::<Seq<char>, V::V>::empty(),
            r.order().len() == 0,
    {
        let r = StringMap { entries: Vec::new() };
        assert(r@ =~= Map::<Seq<char>, V::V>::empty());
        r
    }

    /// The number of keys.
    pub fn len(&self) -> (n: usize)
        ensures
            n == self.order().len(),
            n == self@.len(),
    {
        proof {
            use_type_invariant(self);
            self.lemma_order();
        }
        self.entries.len()
    }

    /// The value stored for `key`, if there is one.
    pub fn get(&self, key: &str) -> (r: Option<&V>)
        ensures
            match r {
                Some(v) => self@.contains_key(key@) && v@ == self@[key@],
                None => !self@.contains_key(key@),
            },
    {
        proof {
            use_type_invariant(self);
        }
        let owned = key.to_owned();
        match position(&self.entries, &owned) {
            Some(i) => {
                proof {
                    lemma_model_entry(self.entries@, i as int);
                }
                Some(&self.entries[i].1)
            },
            None => None,
        }
    }

    /// Whether a value is stored for `key`.
    pub fn contains_key(&self, key: &str) -> (r: bool)
        ensures
            r == self@.contains_key(key@),
    {
        self.get(key).is_some()
    }

    /// The key at position `i` of `order`.
    pub fn key_at(&self, i: usize) -> (k: &String)
        requires
            i < self.order().len(),
        ensures
            k@ == self.order()[i as int],
    {
        &self.entries[i].0
    }

    /// The value at position `i` of `items`.
    pub fn value_at(&self, i: usize) -> (v: &V)
        requires
            i < self.order().len(),
        ensures
            v@ == self.items()[i as int],
    {
        proof {
            use_type_invariant(self);
        }
        &self.entries[i].1
    }

    /// Stores `value` for `key`. A key that is new goes to the end of `order`;
    /// one that is there keeps its place and gets the new value.
    pub fn insert(&mut self, key: String, value: V)
        ensures
            final(self)@ == old(self)@.insert(key@, value@),
            final(self).order() == (if old(self)@.contains_key(key@) {
                old(self).order()
            } else {
                old(self).order().push(key@)
            }),
    {
        proof {
            use_type_invariant(&*self);
        }
        let mut entries: Vec<(String, V)> = Vec::new();
        std::mem::swap(&mut self.entries, &mut entries);
        match position(&entries, &key) {
            Some(i) => {
                entries.set(i, (key, value));
            },
            None => {
                entries.push((key, value));
            },
        }
        self.entries = entries;
        proof {
            let before = old(self).entries@;
            let after = self.entries@;
            assert forall|k: Seq<char>| #[trigger]
                model_of(after).contains_key(k) == model_of(before).insert(
                    key@,
                    value@,
                ).contains_key(k) by {
                if model_of(before).contains_key(k) {
                    let i = choose|i: int| 0 <= i < before.len() && (#[trigger] before[i]).0@ == k;
                    assert(after[i].0@ == k);
                }
                if k == key@ {
                    if old(self)@.contains_key(key@) {
                        let i = choose|i: int|
                            0 <= i < before.len() && (#[trigger] before[i]).0@ == k;
                        assert(after[i].0@ == k);
                    } else {
                        assert(after[before.len() as int].0@ == k);
                    }
                }
                if model_of(after).contains_key(k) && k != key@ {
                    let i = choose|i: int| 0 <= i < after.len() && (#[trigger] after[i]).0@ == k;
                    assert(before[i].0@ == k);
                }
            }
            assert forall|k: Seq<char>| #[trigger]
                model_of(after).contains_key(k) implies model_of(after)[k] == model_of(
                before,
            ).insert(key@, value@)[k] by {
                let i = choose|i: int| 0 <= i < after.len() && (#[trigger] after[i]).0@ == k;
                lemma_model_entry(after, i);
                if k != key@ {
                    assert(before[i].0@ == k);
                    lemma_model_entry(before, i);
                }
            }
            assert(final(self)@ =~= old(self)@.insert(key@, value@));
            if old(self)@.contains_key(key@) {
                assert(final(self).order() =~= old(self).order());
            } else {
                assert(final(self).order() =~= old(self).order().push(key@));
            }
        }
    }
}

} // verus!
