//! An insertion-ordered set of strings.

use vstd::prelude::*;
use crate::string_map::{lemma_prefix_set_step, texts, StringMap};

verus! {

/// A finite set of strings. Its view is the set of the members' texts.
#[derive(Debug)]
pub struct StringSet {
    members: StringMap<()>,
}

/// The items of a list in order, each where it first occurs and nowhere
/// else.
pub open spec fn first_occurrences<T>(list: Seq<T>) -> Seq<T>
    decreases list.len(),
{
    if list.len() == 0 {
        Seq::empty()
    } else if first_occurrences(list.drop_last()).contains(list.last()) {
        first_occurrences(list.drop_last())
    } else {
        first_occurrences(list.drop_last()).push(list.last())
    }
}

impl View for StringSet {
    type V = Set<Seq<char>>;

    open spec fn view(&self) -> Set<Seq<char>> {
        self.names().to_set()
    }
}

impl StringSet {
    /// The members, in the order in which they are stored.
    pub closed spec fn names(&self) -> Seq<Seq<char>> {
        self.members.keys()
    }

    /// No member is stored twice.
    pub closed spec fn wf(&self) -> bool {
        self.members.wf()
    }

    /// A well-formed set lists each member once, so it has as many members
    /// as the list is long.
    pub proof fn lemma_names(&self)
        requires
            self.wf(),
        ensures
            self.names().no_duplicates(),
            self@.finite(),
            self@.len() == self.names().len(),
    {
        self.names().unique_seq_to_set();
    }

    /// The empty set.
    pub fn new() -> (s: Self)
        ensures
            s.wf(),
            s.names() == Seq::<Seq<char>>::empty(),
            s@ == Set::<Seq<char>>::empty(),
    {
        let s = StringSet { members: StringMap::new() };
        assert(s@ =~= Set::<Seq<char>>::empty());
        s
    }

    /// How many strings the set holds.
    pub fn len(&self) -> (n: usize)
        ensures
            n == self.names().len(),
            self.wf() ==> n == self@.len(),
    {
        proof {
            if self.wf() {
                self.lemma_names();
            }
        }
        self.members.len()
    }

    /// Whether the set holds no string.
    pub fn is_empty(&self) -> (b: bool)
        ensures
            b == (self.names().len() == 0),
            b == (self@ == Set::<Seq<char>>::empty()),
    {
        proof {
            if self.names().len() == 0 {
                assert(self@ =~= Set::<Seq<char>>::empty());
            } else {
                assert(self@.contains(self.names()[0]));
            }
        }
        self.members.len() == 0
    }

    /// The `i`-th member in storage order.
    pub fn name_at(&self, i: usize) -> (name: &String)
        requires
            i < self.names().len(),
        ensures
            name@ == self.names()[i as int],
            self@.contains(name@),
    {
        self.members.key_at(i)
    }

    /// The members as stored.
    pub fn name_list(&self) -> (list: &Vec<String>)
        ensures
            texts(list@) == self.names(),
    {
        self.members.key_list()
    }

    /// Whether `name` is a member.
    pub fn contains(&self, name: &String) -> (b: bool)
        ensures
            b == self@.contains(name@),
    {
        self.members.contains_key(name)
    }

    /// Adds `name`; says whether it was new. A new member goes to the end.
    pub fn insert(&mut self, name: String) -> (added: bool)
        requires
            old(self).wf(),
        ensures
            final(self).wf(),
            final(self)@ == old(self)@.insert(name@),
            added == !old(self)@.contains(name@),
            added ==> final(self).names() == old(self).names().push(name@),
            !added ==> final(self).names() == old(self).names(),
    {
        let ghost before = *self;
        let ghost text = name@;
        let previous = self.members.insert(name, ());
        proof {
            assert(self@ =~= before@.insert(text)) by {
                assert(self.members@.dom() =~= before.members@.dom().insert(text));
                assert forall|k: Seq<char>| self@.contains(k) <==> before@.insert(text).contains(
                    k,
                ) by {
                    assert(self@.contains(k) <==> self.members@.dom().contains(k));
                    assert(before@.contains(k) <==> before.members@.dom().contains(k));
                }
            }
        }
        previous.is_none()
    }

    /// Takes `name` out; says whether it was a member. The others keep their
    /// order.
    pub fn remove(&mut self, name: &String) -> (removed: bool)
        requires
            old(self).wf(),
        ensures
            final(self).wf(),
            final(self)@ == old(self)@.remove(name@),
            removed == old(self)@.contains(name@),
            removed ==> final(self).names() == old(self).names().remove(
                old(self).names().index_of(name@),
            ),
            !removed ==> final(self).names() == old(self).names(),
    {
        let ghost before = *self;
        let gone = self.members.remove(name);
        proof {
            assert(self@ =~= before@.remove(name@));
        }
        gone.is_some()
    }

    /// The set of the strings of a list; repeated strings are kept once, at
    /// their first place.
    pub fn from_names(list: &Vec<String>) -> (s: Self)
        ensures
            s.wf(),
            s@ == texts(list@).to_set(),
            s.names() == first_occurrences(texts(list@)),
    {
        let mut s = StringSet::new();
        let mut i: usize = 0;
        while i < list.len()
            invariant
                i <= list.len(),
                s.wf(),
                s@ == texts(list@).subrange(0, i as int).to_set(),
                s.names() == first_occurrences(texts(list@).subrange(0, i as int)),
            decreases list.len() - i,
        {
            let ghost before = s;
            s.insert(list[i].clone());
            proof {
                let longer = texts(list@).subrange(0, i + 1);
                lemma_prefix_set_step(texts(list@), i as int);
                assert(longer.drop_last() =~= texts(list@).subrange(0, i as int));
                assert(longer.last() == list@[i as int]@);
                assert(before@.contains(longer.last()) == before.names().contains(longer.last()));
            }
            i += 1;
        }
        assert(texts(list@).subrange(0, i as int) =~= texts(list@));
        s
    }
}

} // verus!
