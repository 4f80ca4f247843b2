//! An insertion-ordered map keyed by strings.
//!
//! Keys and values are kept in two vectors of equal length; no key occurs
//! twice. The view of a map is the mathematical `Map` from key text to value.

use vstd::prelude::*;

verus! {

/// A finite map from strings to values of type `V`.
#[derive(Debug)]
pub struct StringMap<V> {
    names: Vec<String>,
    slots: Vec<V>,
}

/// The text of each string of a list, in order.
pub open spec fn texts(strings: Seq<String>) -> Seq<Seq<char>> {
    Seq::new(strings.len(), |i: int| strings[i]@)
}

/// The strings of a prefix that is one longer are those of the prefix and
/// the string that follows it.
pub proof fn lemma_prefix_set_step<T>(s: Seq<T>, i: int)
    requires
        0 <= i < s.len(),
    ensures
        s.subrange(0, i + 1).to_set() == s.subrange(0, i).to_set().insert(s[i]),
{
    let shorter = s.subrange(0, i);
    let longer = s.subrange(0, i + 1);
    assert forall|x: T| longer.to_set().contains(x) implies shorter.to_set().insert(s[i]).contains(
        x,
    ) by {
        let j = choose|j: int| 0 <= j < longer.len() && longer[j] == x;
        if j < i {
            assert(shorter[j] == x);
        }
    }
    assert forall|x: T| shorter.to_set().insert(s[i]).contains(x) implies longer.to_set().contains(
        x,
    ) by {
        if x == s[i] {
            assert(longer[i] == x);
        } else {
            let j = choose|j: int| 0 <= j < shorter.len() && shorter[j] == x;
            assert(longer[j] == x);
        }
    }
    assert(longer.to_set() =~= shorter.to_set().insert(s[i]));
}

/// The items of a list are those of the list without its last item, and
/// that last item.
pub proof fn lemma_set_of_last<T>(s: Seq<T>)
    requires
        s.len() > 0,
    ensures
        s.to_set() == s.drop_last().to_set().insert(s.last()),
{
    lemma_prefix_set_step(s, s.len() - 1);
    assert(s.subrange(0, s.len() as int) =~= s);
    assert(s.subrange(0, s.len() - 1) =~= s.drop_last());
}

impl<V> View for StringMap<V> {
    type V = Map<Seq<char>, V>;

    open spec fn view(&self) -> Map<Seq<char>, V> {
        Map::new(
            |k: Seq<char>| self.keys().contains(k),
            |k: Seq<char>| self.values()[self.keys().index_of(k)],
        )
    }
}

impl<V> StringMap<V> {
    /// The keys, in the order in which the entries are stored.
    pub closed spec fn keys(&self) -> Seq<Seq<char>> {
        texts(self.names@)
    }

    /// The values, in the order in which the entries are stored.
    pub closed spec fn values(&self) -> Seq<V> {
        self.slots@
    }

    /// Every key has exactly one entry.
    pub open spec fn wf(&self) -> bool {
        &&& self.keys().len() == self.values().len()
        &&& self.keys().no_duplicates()
    }

    /// In a well-formed map the `i`-th key is mapped to the `i`-th value.
    pub proof fn lemma_entry(&self, i: int)
        requires
            self.wf(),
            0 <= i < self.keys().len(),
        ensures
            self@.contains_key(self.keys()[i]),
            self@[self.keys()[i]] == self.values()[i],
    {
        let k = self.keys()[i];
        assert(self.keys().contains(k));
        let j = self.keys().index_of(k);
        assert(0 <= j < self.keys().len() && self.keys()[j] == k);
    }

    /// In a well-formed map a key is found at the one place where it stands.
    pub proof fn lemma_index(&self, i: int)
        requires
            self.wf(),
            0 <= i < self.keys().len(),
        ensures
            self.keys().index_of(self.keys()[i]) == i,
    {
        let k = self.keys()[i];
        assert(self.keys().contains(k));
        let j = self.keys().index_of(k);
        assert(0 <= j < self.keys().len() && self.keys()[j] == k);
    }

    /// In a well-formed map every key of the view has a place in the list,
    /// and its value stands at the same place.
    pub proof fn lemma_place(&self, key: Seq<char>) -> (i: int)
        requires
            self.wf(),
            self@.contains_key(key),
        ensures
            0 <= i < self.keys().len(),
            self.keys()[i] == key,
            self.values()[i] == self@[key],
    {
        let i = self.keys().index_of(key);
        self.lemma_entry(i);
        i
    }

    /// The domain of the view is finite and as large as the list of keys.
    pub proof fn lemma_dom(&self)
        requires
            self.wf(),
        ensures
            self@.dom() == self.keys().to_set(),
            self@.dom().finite(),
            self@.dom().len() == self.keys().len(),
    {
        assert(self@.dom() =~= self.keys().to_set());
        self.keys().unique_seq_to_set();
    }

    /// The empty map.
    pub fn new() -> (m: Self)
        ensures
            m.wf(),
            m.keys() == Seq::<Seq<char>>::empty(),
            m@ == Map::<Seq<char>, V>::empty(),
    {
        let m = StringMap { names: Vec::new(), slots: Vec::new() };
        assert(m.keys() =~= Seq::<Seq<char>>::empty());
        assert(m@ =~= Map::<Seq<char>, V>::empty());
        m
    }

    /// How many entries the map has.
    pub fn len(&self) -> (n: usize)
        ensures
            n == self.keys().len(),
            self.wf() ==> n == self@.dom().len(),
    {
        proof {
            if self.wf() {
                self.lemma_dom();
            }
        }
        self.names.len()
    }

    /// The keys as stored.
    pub fn key_list(&self) -> (list: &Vec<String>)
        ensures
            texts(list@) == self.keys(),
    {
        &self.names
    }

    /// The values as stored.
    pub fn value_list(&self) -> (list: &Vec<V>)
        ensures
            list@ == self.values(),
    {
        &self.slots
    }

    /// The key of the `i`-th entry.
    pub fn key_at(&self, i: usize) -> (k: &String)
        requires
            i < self.keys().len(),
        ensures
            k@ == self.keys()[i as int],
    {
        &self.names[i]
    }

    /// The value of the `i`-th entry.
    pub fn value_at(&self, i: usize) -> (v: &V)
        requires
            i < self.values().len(),
        ensures
            *v == self.values()[i as int],
    {
        &self.slots[i]
    }

    /// The index of the entry for `key`, if there is one.
    pub fn position(&self, key: &String) -> (r: Option<usize>)
        ensures
            match r {
                Some(i) => i < self.keys().len() && self.keys()[i as int] == key@,
                None => !self.keys().contains(key@),
            },
    {
        let mut i: usize = 0;
        while i < self.names.len()
            invariant
                i <= self.names.len(),
                forall|j: int| 0 <= j < i ==> self.keys()[j] != key@,
            decreases self.names.len() - i,
        {
            if self.names[i] == *key {
                return Some(i);
            }
            i += 1;
        }
        None
    }

    /// Whether `key` has an entry.
    pub fn contains_key(&self, key: &String) -> (b: bool)
        ensures
            b == self@.contains_key(key@),
    {
        self.position(key).is_some()
    }

    /// The value that `key` is bound to, if any.
    pub fn get(&self, key: &String) -> (r: Option<&V>)
        requires
            self.wf(),
        ensures
            match r {
                Some(v) => self@.contains_key(key@) && *v == self@[key@],
                None => !self@.contains_key(key@),
            },
    {
        match self.position(key) {
            Some(i) => {
                proof {
                    self.lemma_entry(i as int);
                }
                Some(&self.slots[i])
            },
            None => None,
        }
    }

    /// Binds `key` to `value` and hands back the value it replaces, if any.
    /// A new key goes to the end; a known key keeps its place.
    pub fn insert(&mut self, key: String, value: V) -> (r: Option<V>)
        requires
            old(self).wf(),
        ensures
            final(self).wf(),
            final(self)@ == old(self)@.insert(key@, value),
            match r {
                Some(v) => old(self)@.contains_key(key@) && v == old(self)@[key@],
                None => !old(self)@.contains_key(key@),
            },
            old(self)@.contains_key(key@) ==> final(self).keys() == old(self).keys(),
            old(self)@.contains_key(key@) ==> final(self).values() == old(self).values().update(
                old(self).keys().index_of(key@),
                value,
            ),
            !old(self)@.contains_key(key@) ==> final(self).keys() == old(self).keys().push(key@),
            !old(self)@.contains_key(key@) ==> final(self).values() == old(self).values().push(
                value,
            ),
    {
        let ghost before = *self;
        match self.position(&key) {
            Some(i) => {
                proof {
                    before.lemma_entry(i as int);
                    before.lemma_index(i as int);
                }
                Some(self.replace_at(i, value))
            },
            None => {
                self.names.push(key);
                self.slots.push(value);
                proof {
                    assert(self.keys() =~= before.keys().push(key@));
                    assert(self.values() =~= before.values().push(value));
                    assert forall|k: Seq<char>| before@.insert(key@, value).contains_key(
                        k,
                    ) implies self@.contains_key(k) by {
                        if k != key@ {
                            let j = before.keys().index_of(k);
                            assert(self.keys()[j] == k);
                        } else {
                            assert(self.keys()[before.keys().len() as int] == k);
                        }
                    }
                    assert forall|k: Seq<char>| self@.contains_key(k) implies #[trigger] self@[k]
                        == before@.insert(key@, value)[k] by {
                        let j = self.keys().index_of(k);
                        assert(0 <= j < self.keys().len() && self.keys()[j] == k);
                        if k != key@ {
                            let j0 = before.keys().index_of(k);
                            assert(before.keys()[j] == k);
                            assert(0 <= j0 < before.keys().len() && before.keys()[j0] == k);
                        }
                    }
                    assert(self@ =~= before@.insert(key@, value));
                }
                None
            },
        }
    }

    /// Puts `value` in the place of the `i`-th value and hands back the
    /// value that stood there.
    pub fn replace_at(&mut self, i: usize, value: V) -> (gone: V)
        requires
            old(self).wf(),
            i < old(self).keys().len(),
        ensures
            final(self).wf(),
            final(self).keys() == old(self).keys(),
            final(self).values() == old(self).values().update(i as int, value),
            gone == old(self).values()[i as int],
            final(self)@ == old(self)@.insert(old(self).keys()[i as int], value),
    {
        let ghost before = *self;
        let gone = self.slots.remove(i);
        self.slots.insert(i, value);
        proof {
            assert(self.values() =~= before.values().update(i as int, value));
            assert forall|k: Seq<char>| self@.contains_key(k) implies #[trigger] self@[k]
                == before@.insert(before.keys()[i as int], value)[k] by {
                let j = self.keys().index_of(k);
                assert(0 <= j < self.keys().len() && self.keys()[j] == k);
            }
            assert(self@ =~= before@.insert(before.keys()[i as int], value));
        }
        gone
    }

    /// Removes the entry for `key`, if there is one, and hands its value
    /// back. The other entries keep their order.
    pub fn remove(&mut self, key: &String) -> (r: Option<V>)
        requires
            old(self).wf(),
        ensures
            final(self).wf(),
            final(self)@ == old(self)@.remove(key@),
            match r {
                Some(v) => {
                    &&& old(self)@.contains_key(key@)
                    &&& v == old(self)@[key@]
                    &&& final(self).keys() == old(self).keys().remove(
                        old(self).keys().index_of(key@),
                    )
                    &&& final(self).values() == old(self).values().remove(
                        old(self).keys().index_of(key@),
                    )
                },
                None => !old(self)@.contains_key(key@) && final(self).keys() == old(self).keys()
                    && final(self).values() == old(self).values(),
            },
            forall|k: Seq<char>|
                final(self).keys().contains(k) <==> old(self).keys().contains(k) && k != key@,
    {
        let ghost before = *self;
        match self.position(key) {
            Some(i) => {
                self.names.remove(i);
                let gone = self.slots.remove(i);
                proof {
                    before.lemma_entry(i as int);
                    before.lemma_index(i as int);
                    assert(self.keys() =~= before.keys().remove(i as int));
                    assert(self.values() =~= before.values().remove(i as int));
                    assert forall|k: Seq<char>|
                        self.keys().contains(k) <==> before.keys().contains(k) && k != key@ by {
                        if self.keys().contains(k) {
                            let j = self.keys().index_of(k);
                            assert(0 <= j < self.keys().len() && self.keys()[j] == k);
                            if j < i {
                                assert(before.keys()[j] == k);
                            } else {
                                assert(before.keys()[j + 1] == k);
                            }
                        }
                        if before.keys().contains(k) && k != key@ {
                            let j = before.keys().index_of(k);
                            assert(0 <= j < before.keys().len() && before.keys()[j] == k);
                            if j < i {
                                assert(self.keys()[j] == k);
                            } else {
                                assert(self.keys()[j - 1] == k);
                            }
                        }
                    }
                    assert forall|k: Seq<char>| self@.contains_key(k) implies #[trigger] self@[k]
                        == before@.remove(key@)[k] by {
                        let j = self.keys().index_of(k);
                        assert(0 <= j < self.keys().len() && self.keys()[j] == k);
                        let j0 = before.keys().index_of(k);
                        assert(0 <= j0 < before.keys().len() && before.keys()[j0] == k);
                        if j < i {
                            assert(before.keys()[j] == k);
                        } else {
                            assert(before.keys()[j + 1] == k);
                        }
                    }
                    assert(self@ =~= before@.remove(key@));
                }
                Some(gone)
            },
            None => {
                proof {
                    assert(self@ =~= before@.remove(key@));
                }
                None
            },
        }
    }
}

} // verus!
