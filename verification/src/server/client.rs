//! One connected client as the broker sees it: what it watches and what it
//! was last told.

use vstd::prelude::*;
use crate::json::ToJson;
use crate::server::redis_hash::{
    delta_text, delete_of, snapshot_text, upsert_of, RedisHash, RedisHashContents,
    RedisHashContentsUpdate,
};
use crate::string_map::StringMap;

verus! {

/// A JSON text on its way to a client.
#[derive(Debug)]
pub struct JsonMessage {
    pub string: String,
}

impl JsonMessage {
    /// The message that carries the JSON text of a value.
    pub fn new<T: ToJson>(serialisable: &T) -> (message: JsonMessage)
        requires
            serialisable.encodable(),
        ensures
            message.string@ == serialisable.json_text(),
    {
        JsonMessage { string: serialisable.to_json() }
    }

    /// The message that carries the JSON text of a value.
    pub fn from<T: ToJson>(serialisable: T) -> (message: JsonMessage)
        requires
            serialisable.encodable(),
        ensures
            message.string@ == serialisable.json_text(),
    {
        JsonMessage { string: serialisable.to_json() }
    }
}

/// What a client has cached for each hash it watches: `None` until the first
/// delivery, then the contents last delivered.
pub type CacheView = Map<Seq<char>, Option<Map<Seq<char>, Seq<char>>>>;

/// The contents of a cache slot as a map, if it holds any.
pub open spec fn slot_view(slot: Option<RedisHashContents>) -> Option<Map<Seq<char>, Seq<char>>> {
    match slot {
        Some(contents) => Some(contents@),
        None => None,
    }
}

/// The frame a client is owed when `fields` is read for `name`: a full
/// snapshot where nothing was delivered for that hash before, a delta where
/// the contents differ from those last delivered, and nothing where they are
/// the same.
pub open spec fn update_frame(
    caches: CacheView,
    name: Seq<char>,
    fields: Map<Seq<char>, Seq<char>>,
) -> Option<Seq<char>> {
    if caches.contains_key(name) && caches[name] is Some {
        let previous = caches[name]->0;
        if fields == previous {
            None
        } else {
            Some(delta_text(upsert_of(fields, previous), delete_of(fields, previous)))
        }
    } else {
        Some(snapshot_text(name, fields))
    }
}

/// The cache after `fields` was read for `name`.
pub open spec fn updated_caches(
    caches: CacheView,
    name: Seq<char>,
    fields: Map<Seq<char>, Seq<char>>,
) -> CacheView {
    caches.insert(name, Some(fields))
}

/// The cache after the client asked for `name`: a hash that it did not watch
/// gets an empty slot; one that it watched keeps what it has.
pub open spec fn requested_caches(caches: CacheView, name: Seq<char>) -> CacheView {
    if caches.contains_key(name) {
        caches
    } else {
        caches.insert(name, None)
    }
}

/// The broker's record of one connected client.
#[derive(Debug)]
pub struct Client {
    hash_caches: StringMap<Option<RedisHashContents>>,
}

impl View for Client {
    type V = CacheView;

    closed spec fn view(&self) -> CacheView {
        self.hash_caches@.map_values(|slot: Option<RedisHashContents>| slot_view(slot))
    }
}

impl Client {
    /// Every hash has one slot, and every slot that is filled is well-formed.
    pub closed spec fn wf(&self) -> bool {
        &&& self.hash_caches.wf()
        &&& forall|name: Seq<char>| #[trigger]
            self.hash_caches@.contains_key(name) ==> match self.hash_caches@[name] {
                Some(contents) => contents.wf(),
                None => true,
            }
    }

    /// A client that watches nothing.
    pub fn new() -> (client: Client)
        ensures
            client.wf(),
            client@ == Map::<Seq<char>, Option<Map<Seq<char>, Seq<char>>>>::empty(),
    {
        let client = Client { hash_caches: StringMap::new() };
        assert(client@ =~= Map::<Seq<char>, Option<Map<Seq<char>, Seq<char>>>>::empty());
        client
    }

    /// Whether the client watches `hashname`.
    pub fn watches(&self, hashname: &String) -> (b: bool)
        ensures
            b == self@.contains_key(hashname@),
    {
        self.hash_caches.contains_key(hashname)
    }

    /// The contents last delivered for `hashname`, if any were.
    pub fn cached(&self, hashname: &String) -> (r: Option<&RedisHashContents>)
        requires
            self.wf(),
        ensures
            match r {
                Some(contents) => {
                    &&& contents.wf()
                    &&& self@.contains_key(hashname@)
                    &&& self@[hashname@] == Some(contents@)
                },
                None => !self@.contains_key(hashname@) || self@[hashname@] is None,
            },
    {
        match self.hash_caches.get(hashname) {
            Some(slot) => {
                assert(self.hash_caches@.contains_key(hashname@));
                match slot {
                    Some(contents) => Some(contents),
                    None => None,
                }
            },
            None => None,
        }
    }

    /// Starts to watch `hashname`. A hash that is watched already keeps what
    /// was delivered for it.
    pub fn handle_request(&mut self, hashname: &String)
        requires
            old(self).wf(),
        ensures
            final(self).wf(),
            final(self)@ == requested_caches(old(self)@, hashname@),
    {
        let ghost before = *self;
        if !self.hash_caches.contains_key(hashname) {
            self.hash_caches.insert(hashname.clone(), None);
            proof {
                assert(self@ =~= before@.insert(hashname@, None));
                assert forall|name: Seq<char>| #[trigger]
                    self.hash_caches@.contains_key(name) implies match self.hash_caches@[name] {
                    Some(contents) => contents.wf(),
                    None => true,
                } by {
                    if name != hashname@ {
                        assert(before.hash_caches@.contains_key(name));
                    }
                }
            }
        }
    }

    /// Stops watching `hashname` and forgets what was delivered for it.
    pub fn handle_drop(&mut self, hashname: &String)
        requires
            old(self).wf(),
        ensures
            final(self).wf(),
            final(self)@ == old(self)@.remove(hashname@),
    {
        let ghost before = *self;
        self.hash_caches.remove(hashname);
        proof {
            assert(self@ =~= before@.remove(hashname@));
            assert forall|name: Seq<char>| #[trigger]
                self.hash_caches@.contains_key(name) implies match self.hash_caches@[name] {
                Some(contents) => contents.wf(),
                None => true,
            } by {
                assert(before.hash_caches@.contains_key(name));
            }
        }
    }

    /// Takes in a fresh read of a hash: remembers its contents and hands back
    /// the frame that the client is owed, if any. A result of `None` means
    /// that the client has seen these contents already.
    pub fn update_hash(&mut self, hash: &RedisHash) -> (frame: Option<JsonMessage>)
        requires
            old(self).wf(),
            hash.wf(),
        ensures
            final(self).wf(),
            final(self)@ == updated_caches(old(self)@, hash.name@, hash.contents@),
            match update_frame(old(self)@, hash.name@, hash.contents@) {
                Some(text) => frame matches Some(message) && message.string@ == text,
                None => frame is None,
            },
    {
        let ghost before = *self;
        let previous = self.hash_caches.insert(hash.name.clone(), Some(hash.contents.clone()));
        proof {
            assert(self@ =~= before@.insert(hash.name@, Some(hash.contents@)));
            assert forall|name: Seq<char>| #[trigger]
                self.hash_caches@.contains_key(name) implies match self.hash_caches@[name] {
                Some(contents) => contents.wf(),
                None => true,
            } by {
                if name != hash.name@ {
                    assert(before.hash_caches@.contains_key(name));
                }
            }
            if previous is Some {
                assert(before.hash_caches@.contains_key(hash.name@));
            }
        }
        match previous {
            Some(Some(delivered)) => {
                match RedisHashContentsUpdate::from(&hash.contents, &delivered) {
                    Some(update) => Some(JsonMessage::from(update)),
                    None => None,
                }
            },
            _ => Some(JsonMessage::new(hash)),
        }
    }
}

} // verus!
