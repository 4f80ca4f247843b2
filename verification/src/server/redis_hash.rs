//! Hash contents, snapshots, and the delta between two snapshots.

use vstd::prelude::*;
use crate::json::{
    array_text, error_text, json_array_text, json_object_text, json_string_text,
    map_entry_texts, object_text, pair_texts, pairing, parse_map_object, parsed_map_object, quote,
    ParseError, ToJson,
};
use crate::shape::{count_members, top_level_members};
use crate::string_map::{lemma_prefix_set_step, texts, StringMap};
use crate::string_set::StringSet;

verus! {

/// The contents of one hash: a finite map from field name to value.
#[derive(Debug)]
pub struct RedisHashContents {
    fields: StringMap<String>,
}

impl View for RedisHashContents {
    type V = Map<Seq<char>, Seq<char>>;

    closed spec fn view(&self) -> Map<Seq<char>, Seq<char>> {
        self.fields@.map_values(|v: String| v@)
    }
}

/// The fields of `current` that are new or whose value differs from the one
/// in `previous`, each with its value in `current`.
pub open spec fn upsert_of(
    current: Map<Seq<char>, Seq<char>>,
    previous: Map<Seq<char>, Seq<char>>,
) -> Map<Seq<char>, Seq<char>> {
    Map::new(
        |k: Seq<char>|
            current.contains_key(k) && (!previous.contains_key(k) || previous[k] != current[k]),
        |k: Seq<char>| current[k],
    )
}

/// The fields of `previous` that `current` no longer has.
pub open spec fn delete_of(
    current: Map<Seq<char>, Seq<char>>,
    previous: Map<Seq<char>, Seq<char>>,
) -> Set<Seq<char>> {
    Set::new(|k: Seq<char>| previous.contains_key(k) && !current.contains_key(k))
}

/// Nothing was added, changed or taken away between the two contents.
pub open spec fn unchanged(
    current: Map<Seq<char>, Seq<char>>,
    previous: Map<Seq<char>, Seq<char>>,
) -> bool {
    upsert_of(current, previous) == Map::<Seq<char>, Seq<char>>::empty() && delete_of(
        current,
        previous,
    ) == Set::<Seq<char>>::empty()
}

/// The contents that result from `previous` when the fields of `delete` are
/// taken away and those of `upsert` are then written.
pub open spec fn apply_delta(
    previous: Map<Seq<char>, Seq<char>>,
    upsert: Map<Seq<char>, Seq<char>>,
    delete: Set<Seq<char>>,
) -> Map<Seq<char>, Seq<char>> {
    previous.remove_keys(delete).union_prefer_right(upsert)
}

/// The map built by writing the pairs of a list one after the other; where a
/// field occurs more than once, its last value stands.
pub open spec fn map_of_pairs(pairs: Seq<(Seq<char>, Seq<char>)>) -> Map<Seq<char>, Seq<char>>
    decreases pairs.len(),
{
    if pairs.len() == 0 {
        Map::empty()
    } else {
        map_of_pairs(pairs.drop_last()).insert(pairs.last().0, pairs.last().1)
    }
}

/// Two contents differ in nothing exactly if they are the same map.
pub proof fn lemma_unchanged_iff_equal(
    current: Map<Seq<char>, Seq<char>>,
    previous: Map<Seq<char>, Seq<char>>,
)
    ensures
        unchanged(current, previous) <==> current == previous,
{
    if current == previous {
        assert(upsert_of(current, previous) =~= Map::<Seq<char>, Seq<char>>::empty());
        assert(delete_of(current, previous) =~= Set::<Seq<char>>::empty());
    }
    if unchanged(current, previous) {
        let upsert = upsert_of(current, previous);
        let delete = delete_of(current, previous);
        assert forall|k: Seq<char>| #[trigger]
            current.contains_key(k) implies previous.contains_key(k) && previous[k]
            == current[k] by {
            assert(!upsert.dom().contains(k));
        }
        assert forall|k: Seq<char>| #[trigger]
            previous.contains_key(k) implies current.contains_key(k) by {
            assert(!delete.contains(k));
        }
        assert(current.dom() =~= previous.dom());
        assert(current =~= previous);
    }
}

/// The delta between a contents and itself is empty.
pub proof fn lemma_diff_same(x: Map<Seq<char>, Seq<char>>)
    ensures
        upsert_of(x, x) == Map::<Seq<char>, Seq<char>>::empty(),
        delete_of(x, x) == Set::<Seq<char>>::empty(),
        unchanged(x, x),
{
    assert(upsert_of(x, x) =~= Map::<Seq<char>, Seq<char>>::empty());
    assert(delete_of(x, x) =~= Set::<Seq<char>>::empty());
}

/// Against empty previous contents, everything in `x` is an upsert and
/// nothing is deleted.
pub proof fn lemma_diff_from_empty(x: Map<Seq<char>, Seq<char>>)
    ensures
        upsert_of(x, Map::empty()) == x,
        delete_of(x, Map::empty()) == Set::<Seq<char>>::empty(),
        unchanged(x, Map::empty()) <==> x == Map::<Seq<char>, Seq<char>>::empty(),
{
    assert(upsert_of(x, Map::empty()) =~= x);
    assert(delete_of(x, Map::empty()) =~= Set::<Seq<char>>::empty());
}

/// Applying the delta between `current` and `previous` to `previous` gives
/// `current`.
pub proof fn lemma_diff_apply(
    current: Map<Seq<char>, Seq<char>>,
    previous: Map<Seq<char>, Seq<char>>,
)
    ensures
        apply_delta(previous, upsert_of(current, previous), delete_of(current, previous))
            == current,
{
    assert(apply_delta(previous, upsert_of(current, previous), delete_of(current, previous))
        =~= current);
}

impl RedisHashContents {
    /// The field names, in the order in which the fields are stored.
    pub closed spec fn names(&self) -> Seq<Seq<char>> {
        self.fields.keys()
    }

    /// No field is stored twice.
    pub closed spec fn wf(&self) -> bool {
        self.fields.wf()
    }

    /// A well-formed contents lists each of its fields once.
    pub proof fn lemma_names(&self)
        requires
            self.wf(),
        ensures
            self.names().no_duplicates(),
            self@.dom() == self.names().to_set(),
            self@.dom().finite(),
            self@.dom().len() == self.names().len(),
    {
        self.fields.lemma_dom();
        assert(self@.dom() =~= self.fields@.dom());
    }

    /// The contents of a hash without fields.
    pub fn new() -> (c: Self)
        ensures
            c.wf(),
            c@ == Map::<Seq<char>, Seq<char>>::empty(),
            c.names() == Seq::<Seq<char>>::empty(),
    {
        let c = RedisHashContents { fields: StringMap::new() };
        assert(c@ =~= Map::<Seq<char>, Seq<char>>::empty());
        c
    }

    /// How many fields there are.
    pub fn len(&self) -> (n: usize)
        ensures
            n == self.names().len(),
            self.wf() ==> n == self@.dom().len(),
    {
        proof {
            if self.wf() {
                self.lemma_names();
            }
        }
        self.fields.len()
    }

    /// Whether there is no field.
    pub fn is_empty(&self) -> (b: bool)
        requires
            self.wf(),
        ensures
            b == (self@ == Map::<Seq<char>, Seq<char>>::empty()),
    {
        proof {
            self.lemma_names();
            if self.names().len() == 0 {
                assert(self@ =~= Map::<Seq<char>, Seq<char>>::empty());
            } else {
                assert(self@.dom().contains(self.names()[0]));
            }
        }
        self.fields.len() == 0
    }

    /// The name of the `i`-th field.
    pub fn field_at(&self, i: usize) -> (name: &String)
        requires
            self.wf(),
            i < self.names().len(),
        ensures
            name@ == self.names()[i as int],
            self@.contains_key(name@),
    {
        proof {
            self.fields.lemma_entry(i as int);
        }
        self.fields.key_at(i)
    }

    /// The value of the `i`-th field.
    pub fn value_at(&self, i: usize) -> (value: &String)
        requires
            self.wf(),
            i < self.names().len(),
        ensures
            self@.contains_key(self.names()[i as int]),
            value@ == self@[self.names()[i as int]],
    {
        proof {
            self.fields.lemma_entry(i as int);
        }
        self.fields.value_at(i)
    }

    /// Whether `field` has a value.
    pub fn contains_field(&self, field: &String) -> (b: bool)
        ensures
            b == self@.contains_key(field@),
    {
        self.fields.contains_key(field)
    }

    /// The value of `field`, if it has one.
    pub fn get(&self, field: &String) -> (r: Option<&String>)
        requires
            self.wf(),
        ensures
            match r {
                Some(v) => self@.contains_key(field@) && v@ == self@[field@],
                None => !self@.contains_key(field@),
            },
    {
        self.fields.get(field)
    }

    /// Writes `value` to `field` and hands back the value it replaces, if
    /// any.
    pub fn insert(&mut self, field: String, value: String) -> (r: Option<String>)
        requires
            old(self).wf(),
        ensures
            final(self).wf(),
            final(self)@ == old(self)@.insert(field@, value@),
            match r {
                Some(v) => old(self)@.contains_key(field@) && v@ == old(self)@[field@],
                None => !old(self)@.contains_key(field@),
            },
    {
        let ghost before = *self;
        let ghost name = field@;
        let ghost text = value@;
        let r = self.fields.insert(field, value);
        proof {
            assert(self@ =~= before@.insert(name, text));
        }
        r
    }

    /// Takes `field` away and hands back its value, if it had one.
    pub fn remove(&mut self, field: &String) -> (r: Option<String>)
        requires
            old(self).wf(),
        ensures
            final(self).wf(),
            final(self)@ == old(self)@.remove(field@),
            match r {
                Some(v) => old(self)@.contains_key(field@) && v@ == old(self)@[field@],
                None => !old(self)@.contains_key(field@),
            },
    {
        let ghost before = *self;
        let r = self.fields.remove(field);
        proof {
            assert(self@ =~= before@.remove(field@));
        }
        r
    }

    /// The contents written by a list of field/value pairs, in order.
    pub fn from_pairs(pairs: &Vec<(String, String)>) -> (c: Self)
        ensures
            c.wf(),
            c@ == map_of_pairs(pair_texts(pairs@)),
    {
        let ghost all = pair_texts(pairs@);
        let mut c = RedisHashContents::new();
        let mut i: usize = 0;
        while i < pairs.len()
            invariant
                i <= pairs.len(),
                all == pair_texts(pairs@),
                c.wf(),
                c@ == map_of_pairs(all.subrange(0, i as int)),
            decreases pairs.len() - i,
        {
            c.insert(pairs[i].0.clone(), pairs[i].1.clone());
            proof {
                let longer = all.subrange(0, i + 1);
                assert(longer.drop_last() =~= all.subrange(0, i as int));
                assert(longer.last() == all[i as int]);
            }
            i += 1;
        }
        assert(all.subrange(0, i as int) =~= all);
        c
    }

    /// Takes away the fields that `update` deletes, then writes the fields
    /// that it upserts.
    pub fn apply_update(&mut self, update: &RedisHashContentsUpdate)
        requires
            old(self).wf(),
            update.wf(),
        ensures
            final(self).wf(),
            final(self)@ == apply_delta(old(self)@, update.upsert_view(), update.delete_view()),
    {
        let ghost before = self@;
        let delete = update.delete();
        let upsert = update.upsert();
        let mut i: usize = 0;
        while i < delete.len()
            invariant
                i <= delete.names().len(),
                self.wf(),
                self@ == before.remove_keys(delete.names().subrange(0, i as int).to_set()),
            decreases delete.names().len() - i,
        {
            let ghost so_far = self@;
            self.remove(delete.name_at(i));
            proof {
                lemma_prefix_set_step(delete.names(), i as int);
                assert(self@ =~= before.remove_keys(
                    delete.names().subrange(0, i + 1).to_set(),
                ));
            }
            i += 1;
        }
        assert(delete.names().subrange(0, i as int) =~= delete.names());
        let ghost pruned = self@;
        let mut j: usize = 0;
        while j < upsert.len()
            invariant
                j <= upsert.names().len(),
                self.wf(),
                upsert.wf(),
                self@ == pruned.union_prefer_right(
                    upsert@.restrict(upsert.names().subrange(0, j as int).to_set()),
                ),
            decreases upsert.names().len() - j,
        {
            let ghost name = upsert.names()[j as int];
            self.insert(upsert.field_at(j).clone(), upsert.value_at(j).clone());
            proof {
                lemma_prefix_set_step(upsert.names(), j as int);
                assert(self@ =~= pruned.union_prefer_right(
                    upsert@.restrict(upsert.names().subrange(0, j + 1).to_set()),
                ));
            }
            j += 1;
        }
        proof {
            upsert.lemma_names();
            assert(upsert.names().subrange(0, j as int) =~= upsert.names());
            assert(upsert@.restrict(upsert.names().to_set()) =~= upsert@);
        }
    }
}

impl ToJson for RedisHashContents {
    open spec fn encodable(&self) -> bool {
        self.wf()
    }

    open spec fn json_text(&self) -> Seq<char> {
        json_object_text(self@)
    }

    /// The JSON object for these contents.
    fn to_json(&self) -> (out: String) {
        let keys = self.fields.key_list();
        let values = self.fields.value_list();
        proof {
            assert(pairing(texts(keys@), texts(values@)) =~= self@);
        }
        object_text(keys, values)
    }
}

impl Clone for RedisHashContents {
    /// A copy with the same fields and values. Of a value that is not
    /// well-formed nothing is promised; no function of this module builds
    /// one.
    fn clone(&self) -> (c: Self)
        ensures
            self.wf() ==> c.wf() && c@ == self@,
    {
        let mut c = RedisHashContents::new();
        if self.fields.len() != self.fields.value_list().len() {
            return c;
        }
        let mut i: usize = 0;
        while i < self.fields.len()
            invariant
                i <= self.names().len(),
                self.names().len() == self.fields.values().len(),
                c.wf(),
                self.wf() ==> c@ == self@.restrict(self.names().subrange(0, i as int).to_set()),
            decreases self.names().len() - i,
        {
            let name = self.fields.key_at(i).clone();
            let value = self.fields.value_at(i).clone();
            c.insert(name, value);
            proof {
                if self.wf() {
                    self.fields.lemma_entry(i as int);
                    lemma_prefix_set_step(self.names(), i as int);
                    assert(c@ =~= self@.restrict(self.names().subrange(0, i + 1).to_set()));
                }
            }
            i += 1;
        }
        proof {
            if self.wf() {
                self.lemma_names();
                assert(self.names().subrange(0, i as int) =~= self.names());
                assert(self@.restrict(self.names().to_set()) =~= self@);
            }
        }
        c
    }
}

/// The change from one contents of a hash to the next: the fields to write
/// and the fields to take away.
#[derive(Debug)]
pub struct RedisHashContentsUpdate {
    upsert: RedisHashContents,
    delete: StringSet,
}

/// The JSON text of a delta.
pub open spec fn delta_text(upsert: Map<Seq<char>, Seq<char>>, delete: Set<Seq<char>>) -> Seq<
    char,
> {
    "{\"upsert\":"@ + json_object_text(upsert) + ",\"delete\":"@ + json_array_text(delete) + "}"@
}

impl RedisHashContentsUpdate {
    /// The fields to write, with their new values.
    pub closed spec fn upsert_view(&self) -> Map<Seq<char>, Seq<char>> {
        self.upsert@
    }

    /// The fields to take away.
    pub closed spec fn delete_view(&self) -> Set<Seq<char>> {
        self.delete@
    }

    /// Both parts are well-formed.
    pub closed spec fn wf(&self) -> bool {
        self.upsert.wf() && self.delete.wf()
    }

    /// The fields to write, with their new values.
    pub fn upsert(&self) -> (u: &RedisHashContents)
        ensures
            u@ == self.upsert_view(),
            self.wf() ==> u.wf(),
    {
        &self.upsert
    }

    /// The fields to take away.
    pub fn delete(&self) -> (d: &StringSet)
        ensures
            d@ == self.delete_view(),
            self.wf() ==> d.wf(),
    {
        &self.delete
    }

    /// The delta that leads from `previous` to `contemporary`, or `None`
    /// where the two are the same.
    pub fn from(contemporary: &RedisHashContents, previous: &RedisHashContents) -> (r: Option<
        RedisHashContentsUpdate,
    >)
        requires
            contemporary.wf(),
            previous.wf(),
        ensures
            r is None <==> contemporary@ == previous@,
            r is None <==> unchanged(contemporary@, previous@),
            match r {
                Some(update) => {
                    &&& update.wf()
                    &&& update.upsert_view() == upsert_of(contemporary@, previous@)
                    &&& update.delete_view() == delete_of(contemporary@, previous@)
                },
                None => true,
            },
    {
        let ghost cur = contemporary@;
        let ghost prev = previous@;
        let mut upsert = RedisHashContents::new();
        let mut i: usize = 0;
        while i < contemporary.len()
            invariant
                i <= contemporary.names().len(),
                contemporary.wf(),
                previous.wf(),
                cur == contemporary@,
                prev == previous@,
                upsert.wf(),
                upsert@ == upsert_of(cur, prev).restrict(
                    contemporary.names().subrange(0, i as int).to_set(),
                ),
            decreases contemporary.names().len() - i,
        {
            let field = contemporary.field_at(i);
            let value = contemporary.value_at(i);
            let same = match previous.get(field) {
                Some(before) => *before == *value,
                None => false,
            };
            if !same {
                upsert.insert(field.clone(), value.clone());
            }
            proof {
                lemma_prefix_set_step(contemporary.names(), i as int);
                assert(upsert@ =~= upsert_of(cur, prev).restrict(
                    contemporary.names().subrange(0, i + 1).to_set(),
                ));
            }
            i += 1;
        }
        let mut delete = StringSet::new();
        let mut j: usize = 0;
        while j < previous.len()
            invariant
                j <= previous.names().len(),
                contemporary.wf(),
                previous.wf(),
                cur == contemporary@,
                prev == previous@,
                delete.wf(),
                delete@ == delete_of(cur, prev).intersect(
                    previous.names().subrange(0, j as int).to_set(),
                ),
            decreases previous.names().len() - j,
        {
            let field = previous.field_at(j);
            if !contemporary.contains_field(field) {
                delete.insert(field.clone());
            }
            proof {
                lemma_prefix_set_step(previous.names(), j as int);
                assert(delete@ =~= delete_of(cur, prev).intersect(
                    previous.names().subrange(0, j + 1).to_set(),
                ));
            }
            j += 1;
        }
        proof {
            contemporary.lemma_names();
            previous.lemma_names();
            assert(contemporary.names().subrange(0, i as int) =~= contemporary.names());
            assert(previous.names().subrange(0, j as int) =~= previous.names());
            assert(upsert@ =~= upsert_of(cur, prev));
            assert(delete@ =~= delete_of(cur, prev));
            lemma_unchanged_iff_equal(cur, prev);
        }
        if delete.is_empty() && upsert.is_empty() {
            None
        } else {
            Some(RedisHashContentsUpdate { upsert, delete })
        }
    }
}

impl ToJson for RedisHashContentsUpdate {
    open spec fn encodable(&self) -> bool {
        self.wf()
    }

    open spec fn json_text(&self) -> Seq<char> {
        delta_text(self.upsert_view(), self.delete_view())
    }

    /// The JSON text of this delta.
    fn to_json(&self) -> (out: String) {
        let mut out = String::from_str("{\"upsert\":");
        out.append(self.upsert.to_json().as_str());
        out.append(",\"delete\":");
        proof {
            self.delete.lemma_names();
        }
        out.append(array_text(self.delete.name_list()).as_str());
        out.append("}");
        out
    }
}

/// A point-in-time read of one hash: its name and its contents.
#[derive(Debug)]
pub struct RedisHash {
    pub name: String,
    pub contents: RedisHashContents,
}

/// The JSON text of a full snapshot: an object with the hash name as its
/// only key and the contents as that key's value.
pub open spec fn snapshot_text(name: Seq<char>, fields: Map<Seq<char>, Seq<char>>) -> Seq<char> {
    "{"@ + json_string_text(name) + ":"@ + json_object_text(fields) + "}"@
}

/// `r` is the right answer for a decoded object with these entries: the
/// snapshot that the only entry stands for, or the error that says why there
/// is none.
pub open spec fn snapshot_answer(
    entries: Seq<(Seq<char>, Seq<(Seq<char>, Seq<char>)>)>,
    r: Result<RedisHash, ParseError>,
) -> bool {
    match r {
        Ok(hash) => {
            &&& entries.len() == 1
            &&& hash.wf()
            &&& hash.name@ == entries[0].0
            &&& hash.contents@ == map_of_pairs(entries[0].1)
        },
        Err(ParseError::Missing) => entries.len() == 0,
        Err(ParseError::Duplicate) => entries.len() > 1,
        Err(_) => false,
    }
}

/// `r` is the right answer for a decoded object with these entries, taken
/// from a text that writes `members` members: the error `Duplicate` where the
/// text writes more members than there are entries, which is so where it
/// gives a hash name more than once, and else the answer for the entries.
pub open spec fn decoded_snapshot_answer(
    entries: Seq<(Seq<char>, Seq<(Seq<char>, Seq<char>)>)>,
    members: nat,
    r: Result<RedisHash, ParseError>,
) -> bool {
    if members == entries.len() {
        snapshot_answer(entries, r)
    } else {
        r matches Err(ParseError::Duplicate)
    }
}

/// `r` is the right answer to a text: the error `Malformed` where the text
/// decodes to no object, and else the answer for what it decodes to and the
/// members that it writes.
pub open spec fn snapshot_parse_answer(text: Seq<char>, r: Result<RedisHash, ParseError>) -> bool {
    match parsed_map_object(text) {
        Some(entries) => decoded_snapshot_answer(entries, top_level_members(text), r),
        None => r matches Err(ParseError::Malformed(_)),
    }
}

impl RedisHash {
    /// The contents are well-formed.
    pub open spec fn wf(&self) -> bool {
        self.contents.wf()
    }

    /// The snapshot that a decoded object stands for. The object must have
    /// exactly one entry: the hash name with the hash's fields.
    pub fn from_entries(entries: &Vec<(String, Vec<(String, String)>)>) -> (r: Result<
        RedisHash,
        ParseError,
    >)
        ensures
            snapshot_answer(map_entry_texts(entries@), r),
    {
        if entries.len() == 0 {
            Err(ParseError::Missing)
        } else if entries.len() > 1 {
            Err(ParseError::Duplicate)
        } else {
            Ok(
                RedisHash {
                    name: entries[0].0.clone(),
                    contents: RedisHashContents::from_pairs(&entries[0].1),
                },
            )
        }
    }

    /// The snapshot that a decoded object stands for, where the text that it
    /// was decoded from writes `members` members. A decoder keeps one entry
    /// for each key; a text with more members than entries gave a hash name
    /// more than once, and is rejected like one with two names.
    pub fn from_decoded(entries: &Vec<(String, Vec<(String, String)>)>, members: usize) -> (r:
        Result<RedisHash, ParseError>)
        ensures
            decoded_snapshot_answer(map_entry_texts(entries@), members as nat, r),
    {
        if members == entries.len() {
            RedisHash::from_entries(entries)
        } else {
            Err(ParseError::Duplicate)
        }
    }

    /// Decodes the JSON text of a full snapshot. The text must be an object
    /// with exactly one member. A field that is given twice inside the hash
    /// keeps its last value.
    pub fn parse(text: &str) -> (r: Result<RedisHash, ParseError>)
        ensures
            snapshot_parse_answer(text@, r),
    {
        match parse_map_object(text) {
            Ok(entries) => RedisHash::from_decoded(&entries, count_members(text)),
            Err(error) => Err(ParseError::Malformed(error_text(&error))),
        }
    }
}

impl ToJson for RedisHash {
    open spec fn encodable(&self) -> bool {
        self.wf()
    }

    open spec fn json_text(&self) -> Seq<char> {
        snapshot_text(self.name@, self.contents@)
    }

    /// The JSON text of this snapshot.
    fn to_json(&self) -> (out: String) {
        let mut out = String::from_str("{");
        out.append(quote(&self.name).as_str());
        out.append(":");
        out.append(self.contents.to_json().as_str());
        out.append("}");
        out
    }
}

} // verus!
