//! The broker as a mathematical state machine.
//!
//! The state is the client table, the subscription index and the polling
//! queue. Every operation of the broker is a function from state to state;
//! the executable broker is proved to follow these functions step by step.

use vstd::prelude::*;
use crate::server::client::{requested_caches, update_frame, updated_caches, CacheView};
use crate::string_map::lemma_set_of_last;

verus! {

/// The state of a broker.
pub struct BrokerState {
    /// For each connected client, what it watches and what it was last told.
    pub clients: Map<usize, CacheView>,
    /// For each hash in the index, the clients that subscribe to it.
    pub subscribers: Map<Seq<char>, Set<usize>>,
    /// The hashes that wait to be read, the next one first.
    pub queue: Seq<Seq<char>>,
}

/// What the broker does with the head of its queue.
pub enum PollOutcome {
    /// The queue is empty: there is nothing to do.
    Idle,
    /// The hash at the head has no subscriber: it left the index and the
    /// queue, and is not to be read.
    Pruned(Seq<char>),
    /// The hash at the head has subscribers: it went to the tail of the
    /// queue, and is to be read now.
    Fetch(Seq<char>),
}

impl BrokerState {
    /// The state of a broker that has seen nothing yet.
    pub open spec fn init() -> BrokerState {
        BrokerState { clients: Map::empty(), subscribers: Map::empty(), queue: Seq::empty() }
    }

    /// The clients that subscribe to `name`; none where the index does not
    /// have the hash.
    pub open spec fn watchers(self, name: Seq<char>) -> Set<usize> {
        if self.subscribers.contains_key(name) {
            self.subscribers[name]
        } else {
            Set::empty()
        }
    }

    /// The index lists `id` under `name`.
    pub open spec fn subscribed(self, name: Seq<char>, id: usize) -> bool {
        self.watchers(name).contains(id)
    }

    /// The client `id` is connected and its record has a slot for `name`.
    pub open spec fn watching(self, id: usize, name: Seq<char>) -> bool {
        self.clients.contains_key(id) && self.clients[id].contains_key(name)
    }

    /// The index has an entry for `name`.
    pub open spec fn listed(self, name: Seq<char>) -> bool {
        self.subscribers.contains_key(name)
    }

    /// The hash `name` waits in the queue.
    pub open spec fn queued(self, name: Seq<char>) -> bool {
        self.queue.contains(name)
    }

    /// The three structures agree: no hash waits twice; the index has
    /// exactly the hashes that wait; and the index lists a client under a
    /// hash exactly if the client is connected and its record has a slot for
    /// that hash.
    pub open spec fn consistent(self) -> bool {
        &&& self.queue.no_duplicates()
        &&& forall|name: Seq<char>|
            #![trigger self.listed(name)]
            #![trigger self.queued(name)]
            self.listed(name) == self.queued(name)
        &&& forall|name: Seq<char>, id: usize|
            #![trigger self.subscribed(name, id)]
            #![trigger self.watching(id, name)]
            self.subscribed(name, id) == self.watching(id, name)
    }

    /// The state without the client `id`: its record is gone, and so is its
    /// id from every subscriber set. No index entry is removed.
    pub open spec fn without_client(self, id: usize) -> BrokerState {
        BrokerState {
            clients: self.clients.remove(id),
            subscribers: self.subscribers.map_values(|ids: Set<usize>| ids.remove(id)),
            queue: self.queue,
        }
    }

    /// A client connects under `id`: it gets a fresh record that watches
    /// nothing. Whatever was kept under that id before is discarded first.
    pub open spec fn connect(self, id: usize) -> BrokerState {
        let cleared = self.without_client(id);
        BrokerState {
            clients: cleared.clients.insert(id, Map::empty()),
            subscribers: cleared.subscribers,
            queue: cleared.queue,
        }
    }

    /// The client `id` disconnects.
    pub open spec fn disconnect(self, id: usize) -> BrokerState {
        self.without_client(id)
    }

    /// The connected client `id` asks for the hash `name`: the index lists it
    /// under the hash, its record gets a slot for the hash unless it has one,
    /// and the hash joins the tail of the queue unless it waits already.
    pub open spec fn request_one(self, id: usize, name: Seq<char>) -> BrokerState {
        BrokerState {
            clients: self.clients.insert(id, requested_caches(self.clients[id], name)),
            subscribers: self.subscribers.insert(name, self.watchers(name).insert(id)),
            queue: if self.queue.contains(name) {
                self.queue
            } else {
                self.queue.push(name)
            },
        }
    }

    /// The connected client `id` asks for the hashes `names`, one after the
    /// other.
    pub open spec fn request_all(self, id: usize, names: Seq<Seq<char>>) -> BrokerState
        decreases names.len(),
    {
        if names.len() == 0 {
            self
        } else {
            self.request_all(id, names.drop_last()).request_one(id, names.last())
        }
    }

    /// A request from `id` for `names`; nothing happens where no client is
    /// connected under `id`.
    pub open spec fn request(self, id: usize, names: Seq<Seq<char>>) -> BrokerState {
        if self.clients.contains_key(id) {
            self.request_all(id, names)
        } else {
            self
        }
    }

    /// The connected client `id` drops the hash `name`: its record loses the
    /// slot for the hash, and the index no longer lists it under the hash.
    /// The hash stays in the index and in the queue.
    pub open spec fn drop_one(self, id: usize, name: Seq<char>) -> BrokerState {
        BrokerState {
            clients: self.clients.insert(id, self.clients[id].remove(name)),
            subscribers: if self.subscribers.contains_key(name) {
                self.subscribers.insert(name, self.subscribers[name].remove(id))
            } else {
                self.subscribers
            },
            queue: self.queue,
        }
    }

    /// The connected client `id` drops the hashes `names`, one after the
    /// other.
    pub open spec fn drop_all(self, id: usize, names: Seq<Seq<char>>) -> BrokerState
        decreases names.len(),
    {
        if names.len() == 0 {
            self
        } else {
            self.drop_all(id, names.drop_last()).drop_one(id, names.last())
        }
    }

    /// A drop from `id` of `names`; nothing happens where no client is
    /// connected under `id`.
    pub open spec fn drop_names(self, id: usize, names: Seq<Seq<char>>) -> BrokerState {
        if self.clients.contains_key(id) {
            self.drop_all(id, names)
        } else {
            self
        }
    }

    /// What the next poll finds at the head of the queue.
    pub open spec fn poll_outcome(self) -> PollOutcome {
        if self.queue.len() == 0 {
            PollOutcome::Idle
        } else if self.watchers(self.queue[0]) == Set::<usize>::empty() {
            PollOutcome::Pruned(self.queue[0])
        } else {
            PollOutcome::Fetch(self.queue[0])
        }
    }

    /// The state after the next poll took the head off the queue.
    pub open spec fn poll(self) -> BrokerState {
        match self.poll_outcome() {
            PollOutcome::Idle => self,
            PollOutcome::Pruned(name) => BrokerState {
                clients: self.clients,
                subscribers: self.subscribers.remove(name),
                queue: self.queue.subrange(1, self.queue.len() as int),
            },
            PollOutcome::Fetch(name) => BrokerState {
                clients: self.clients,
                subscribers: self.subscribers,
                queue: self.queue.subrange(1, self.queue.len() as int).push(name),
            },
        }
    }

    /// The clients that a read of `name` is delivered to: those that the
    /// index lists under the hash and that are connected.
    pub open spec fn recipients(self, name: Seq<char>) -> Set<usize> {
        Set::new(|id: usize| self.watchers(name).contains(id) && self.clients.contains_key(id))
    }

    /// The frame that the client `id` is sent when `fields` is read for
    /// `name`, if it is sent one.
    pub open spec fn frame_for(
        self,
        id: usize,
        name: Seq<char>,
        fields: Map<Seq<char>, Seq<char>>,
    ) -> Option<Seq<char>> {
        if self.recipients(name).contains(id) {
            update_frame(self.clients[id], name, fields)
        } else {
            None
        }
    }

    /// The state after `fields` was read for `name` and delivered: every
    /// recipient remembers the contents. Index and queue stay as they are.
    pub open spec fn deliver(
        self,
        name: Seq<char>,
        fields: Map<Seq<char>, Seq<char>>,
    ) -> BrokerState {
        BrokerState {
            clients: Map::new(
                |id: usize| self.clients.contains_key(id),
                |id: usize|
                    if self.recipients(name).contains(id) {
                        updated_caches(self.clients[id], name, fields)
                    } else {
                        self.clients[id]
                    },
            ),
            subscribers: self.subscribers,
            queue: self.queue,
        }
    }
}

/// A fresh broker is consistent.
pub proof fn lemma_init_consistent()
    ensures
        BrokerState::init().consistent(),
{
    let s = BrokerState::init();
    assert forall|name: Seq<char>| s.listed(name) == s.queued(name) by {
        assert(!s.queue.contains(name));
    }
}

/// Taking a client out keeps the state consistent.
pub proof fn lemma_without_client_consistent(s: BrokerState, id: usize)
    requires
        s.consistent(),
    ensures
        s.without_client(id).consistent(),
        !s.without_client(id).clients.contains_key(id),
        forall|name: Seq<char>| !s.without_client(id).subscribed(name, id),
{
    let t = s.without_client(id);
    assert forall|name: Seq<char>| t.listed(name) == t.queued(name) by {
        assert(s.listed(name) == s.queued(name));
    }
    assert forall|name: Seq<char>, other: usize| t.subscribed(name, other) == t.watching(
        other,
        name,
    ) by {
        assert(s.subscribed(name, other) == s.watching(other, name));
    }
}

/// A connect keeps the state consistent.
pub proof fn lemma_connect_consistent(s: BrokerState, id: usize)
    requires
        s.consistent(),
    ensures
        s.connect(id).consistent(),
{
    let c = s.without_client(id);
    let t = s.connect(id);
    lemma_without_client_consistent(s, id);
    assert forall|name: Seq<char>| t.listed(name) == t.queued(name) by {
        assert(c.listed(name) == c.queued(name));
    }
    assert forall|name: Seq<char>, other: usize| t.subscribed(name, other) == t.watching(
        other,
        name,
    ) by {
        assert(c.subscribed(name, other) == c.watching(other, name));
        assert(!c.subscribed(name, id));
    }
}

/// A request for one hash keeps the state consistent.
pub proof fn lemma_request_one_consistent(s: BrokerState, id: usize, name: Seq<char>)
    requires
        s.consistent(),
        s.clients.contains_key(id),
    ensures
        s.request_one(id, name).consistent(),
        s.request_one(id, name).clients.dom() == s.clients.dom(),
{
    let t = s.request_one(id, name);
    assert(t.clients.dom() =~= s.clients.dom());
    if !s.queue.contains(name) {
        assert forall|i: int, j: int|
            0 <= i < t.queue.len() && 0 <= j < t.queue.len() && i != j implies t.queue[i]
            != t.queue[j] by {
            if i < s.queue.len() {
                assert(s.queue[i] == t.queue[i]);
            }
            if j < s.queue.len() {
                assert(s.queue[j] == t.queue[j]);
            }
        }
    }
    assert forall|other: Seq<char>| t.listed(other) == t.queued(other) by {
        assert(s.listed(other) == s.queued(other));
        if s.queue.contains(name) {
        } else {
            assert(t.queue[s.queue.len() as int] == name);
            if s.queue.contains(other) {
                let i = choose|i: int| 0 <= i < s.queue.len() && s.queue[i] == other;
                assert(t.queue[i] == other);
            }
            if t.queue.contains(other) && other != name {
                let i = choose|i: int| 0 <= i < t.queue.len() && t.queue[i] == other;
                assert(s.queue[i] == other);
            }
        }
    }
    assert forall|other: Seq<char>, client: usize| t.subscribed(other, client) == t.watching(
        client,
        other,
    ) by {
        assert(s.subscribed(other, client) == s.watching(client, other));
    }
}

/// A request for several hashes keeps the state consistent and the set of
/// connected clients as it is.
pub proof fn lemma_request_all_consistent(s: BrokerState, id: usize, names: Seq<Seq<char>>)
    requires
        s.consistent(),
        s.clients.contains_key(id),
    ensures
        s.request_all(id, names).consistent(),
        s.request_all(id, names).clients.dom() == s.clients.dom(),
    decreases names.len(),
{
    if names.len() > 0 {
        lemma_request_all_consistent(s, id, names.drop_last());
        lemma_request_one_consistent(s.request_all(id, names.drop_last()), id, names.last());
    }
}

/// The record of a client after it asked for the hashes `asked`: a slot for
/// each of them, empty where the record had none.
pub open spec fn caches_after_request(caches: CacheView, asked: Set<Seq<char>>) -> CacheView {
    Map::new(
        |name: Seq<char>| caches.contains_key(name) || asked.contains(name),
        |name: Seq<char>|
            if caches.contains_key(name) {
                caches[name]
            } else {
                None
            },
    )
}

/// What a request for several hashes comes to, said at once: the client's
/// record has a slot for each hash asked for; the index lists the client
/// under each of them; and the queue, otherwise unchanged, is followed by
/// those of the hashes that did not wait yet.
pub proof fn lemma_request_all_outcome(s: BrokerState, id: usize, names: Seq<Seq<char>>)
    requires
        s.clients.contains_key(id),
    ensures
        s.request_all(id, names).clients == s.clients.insert(
            id,
            caches_after_request(s.clients[id], names.to_set()),
        ),
        s.request_all(id, names).subscribers == Map::new(
            |name: Seq<char>| s.subscribers.contains_key(name) || names.to_set().contains(name),
            |name: Seq<char>|
                if names.to_set().contains(name) {
                    s.watchers(name).insert(id)
                } else {
                    s.subscribers[name]
                },
        ),
        s.queue.len() <= s.request_all(id, names).queue.len(),
        s.request_all(id, names).queue.subrange(0, s.queue.len() as int) == s.queue,
        forall|name: Seq<char>| #[trigger]
            s.request_all(id, names).queue.contains(name) <==> s.queue.contains(name)
                || names.to_set().contains(name),
    decreases names.len(),
{
    let t = s.request_all(id, names);
    if names.len() == 0 {
        assert(names.to_set() =~= Set::<Seq<char>>::empty());
        assert(caches_after_request(s.clients[id], names.to_set()) =~= s.clients[id]);
        assert(t.clients =~= s.clients.insert(
            id,
            caches_after_request(s.clients[id], names.to_set()),
        ));
        assert(t.subscribers =~= Map::new(
            |name: Seq<char>| s.subscribers.contains_key(name) || names.to_set().contains(name),
            |name: Seq<char>|
                if names.to_set().contains(name) {
                    s.watchers(name).insert(id)
                } else {
                    s.subscribers[name]
                },
        ));
        assert(t.queue.subrange(0, s.queue.len() as int) =~= s.queue);
    } else {
        let shorter = names.drop_last();
        let last = names.last();
        let mid = s.request_all(id, shorter);
        lemma_request_all_outcome(s, id, shorter);
        lemma_set_of_last(names);
        assert(caches_after_request(s.clients[id], names.to_set()) =~= requested_caches(
            caches_after_request(s.clients[id], shorter.to_set()),
            last,
        ));
        assert(t.clients =~= s.clients.insert(
            id,
            caches_after_request(s.clients[id], names.to_set()),
        ));
        let target = Map::new(
            |name: Seq<char>| s.subscribers.contains_key(name) || names.to_set().contains(name),
            |name: Seq<char>|
                if names.to_set().contains(name) {
                    s.watchers(name).insert(id)
                } else {
                    s.subscribers[name]
                },
        );
        assert forall|name: Seq<char>|
            target.contains_key(name) implies #[trigger] t.subscribers[name] == target[name] by {
            if name == last {
                assert(mid.watchers(last).insert(id) =~= s.watchers(last).insert(id));
            }
        }
        assert(t.subscribers =~= target);
        assert(t.queue.subrange(0, s.queue.len() as int) =~= mid.queue.subrange(
            0,
            s.queue.len() as int,
        ));
        assert forall|name: Seq<char>| #[trigger]
            t.queue.contains(name) <==> s.queue.contains(name) || names.to_set().contains(
                name,
            ) by {
            if mid.queue.contains(last) {
            } else {
                assert(t.queue[mid.queue.len() as int] == last);
                if mid.queue.contains(name) {
                    let i = choose|i: int| 0 <= i < mid.queue.len() && mid.queue[i] == name;
                    assert(t.queue[i] == name);
                }
                if t.queue.contains(name) && name != last {
                    let i = choose|i: int| 0 <= i < t.queue.len() && t.queue[i] == name;
                    assert(mid.queue[i] == name);
                }
            }
        }
    }
}

/// What a drop of several hashes comes to, said at once: the client's record
/// loses the slots of the hashes dropped, and the index no longer lists the
/// client under any of them. The queue stays as it is.
pub proof fn lemma_drop_all_outcome(s: BrokerState, id: usize, names: Seq<Seq<char>>)
    requires
        s.clients.contains_key(id),
    ensures
        s.drop_all(id, names).clients == s.clients.insert(
            id,
            s.clients[id].remove_keys(names.to_set()),
        ),
        s.drop_all(id, names).subscribers == Map::new(
            |name: Seq<char>| s.subscribers.contains_key(name),
            |name: Seq<char>|
                if names.to_set().contains(name) {
                    s.subscribers[name].remove(id)
                } else {
                    s.subscribers[name]
                },
        ),
        s.drop_all(id, names).queue == s.queue,
    decreases names.len(),
{
    let t = s.drop_all(id, names);
    let target = Map::new(
        |name: Seq<char>| s.subscribers.contains_key(name),
        |name: Seq<char>|
            if names.to_set().contains(name) {
                s.subscribers[name].remove(id)
            } else {
                s.subscribers[name]
            },
    );
    if names.len() == 0 {
        assert(names.to_set() =~= Set::<Seq<char>>::empty());
        assert(s.clients[id].remove_keys(names.to_set()) =~= s.clients[id]);
        assert(t.clients =~= s.clients.insert(id, s.clients[id].remove_keys(names.to_set())));
        assert(t.subscribers =~= target);
    } else {
        let shorter = names.drop_last();
        let last = names.last();
        lemma_drop_all_outcome(s, id, shorter);
        lemma_set_of_last(names);
        assert(s.clients[id].remove_keys(names.to_set()) =~= s.clients[id].remove_keys(
            shorter.to_set(),
        ).remove(last));
        assert(t.clients =~= s.clients.insert(id, s.clients[id].remove_keys(names.to_set())));
        let mid = s.drop_all(id, shorter);
        assert forall|name: Seq<char>|
            target.contains_key(name) implies #[trigger] t.subscribers[name] == target[name] by {
            if name == last {
                assert(mid.subscribers[last].remove(id) =~= s.subscribers[last].remove(id));
            }
        }
        assert(t.subscribers =~= target);
    }
}

/// A drop of one hash keeps the state consistent.
pub proof fn lemma_drop_one_consistent(s: BrokerState, id: usize, name: Seq<char>)
    requires
        s.consistent(),
        s.clients.contains_key(id),
    ensures
        s.drop_one(id, name).consistent(),
        s.drop_one(id, name).clients.dom() == s.clients.dom(),
{
    let t = s.drop_one(id, name);
    assert(t.clients.dom() =~= s.clients.dom());
    assert forall|other: Seq<char>| t.listed(other) == t.queued(other) by {
        assert(s.listed(other) == s.queued(other));
    }
    assert forall|other: Seq<char>, client: usize| t.subscribed(other, client) == t.watching(
        client,
        other,
    ) by {
        assert(s.subscribed(other, client) == s.watching(client, other));
    }
}

/// A drop of several hashes keeps the state consistent and the set of
/// connected clients as it is.
pub proof fn lemma_drop_all_consistent(s: BrokerState, id: usize, names: Seq<Seq<char>>)
    requires
        s.consistent(),
        s.clients.contains_key(id),
    ensures
        s.drop_all(id, names).consistent(),
        s.drop_all(id, names).clients.dom() == s.clients.dom(),
    decreases names.len(),
{
    if names.len() > 0 {
        lemma_drop_all_consistent(s, id, names.drop_last());
        lemma_drop_one_consistent(s.drop_all(id, names.drop_last()), id, names.last());
    }
}

/// A poll keeps the state consistent.
pub proof fn lemma_poll_consistent(s: BrokerState)
    requires
        s.consistent(),
    ensures
        s.poll().consistent(),
{
    let t = s.poll();
    if s.queue.len() > 0 {
        let head = s.queue[0];
        let rest = s.queue.subrange(1, s.queue.len() as int);
        assert forall|i: int| 0 <= i < rest.len() implies rest[i] == s.queue[i + 1] && rest[i]
            != head by {}
        assert(s.queued(head));
        assert(s.listed(head));
        assert forall|other: Seq<char>| other != head implies (rest.contains(other)
            == s.queue.contains(other)) by {
            if rest.contains(other) {
                let i = choose|i: int| 0 <= i < rest.len() && rest[i] == other;
                assert(s.queue[i + 1] == other);
            }
            if s.queue.contains(other) {
                let i = choose|i: int| 0 <= i < s.queue.len() && s.queue[i] == other;
                assert(rest[i - 1] == other);
            }
        }
        assert(!rest.contains(head));
        if s.watchers(head) == Set::<usize>::empty() {
            assert(t.queue == rest);
            assert forall|other: Seq<char>| t.listed(other) == t.queued(other) by {
                assert(s.listed(other) == s.queued(other));
            }
            assert forall|other: Seq<char>, client: usize| t.subscribed(other, client)
                == t.watching(client, other) by {
                assert(s.subscribed(other, client) == s.watching(client, other));
                assert(!s.watchers(head).contains(client));
            }
        } else {
            assert(t.queue == rest.push(head));
            assert forall|i: int, j: int|
                0 <= i < t.queue.len() && 0 <= j < t.queue.len() && i != j implies t.queue[i]
                != t.queue[j] by {
                if i < rest.len() && j < rest.len() {
                    assert(s.queue[i + 1] != s.queue[j + 1]);
                }
            }
            assert forall|other: Seq<char>| t.listed(other) == t.queued(other) by {
                assert(s.listed(other) == s.queued(other));
                assert(t.queue[rest.len() as int] == head);
                if other != head {
                    if rest.contains(other) {
                        let i = choose|i: int| 0 <= i < rest.len() && rest[i] == other;
                        assert(t.queue[i] == other);
                    }
                    if t.queue.contains(other) {
                        let i = choose|i: int| 0 <= i < t.queue.len() && t.queue[i] == other;
                        assert(rest[i] == other);
                    }
                }
            }
            assert forall|other: Seq<char>, client: usize| t.subscribed(other, client)
                == t.watching(client, other) by {
                assert(s.subscribed(other, client) == s.watching(client, other));
            }
        }
    }
}

/// A delivery keeps the state consistent.
pub proof fn lemma_deliver_consistent(
    s: BrokerState,
    name: Seq<char>,
    fields: Map<Seq<char>, Seq<char>>,
)
    requires
        s.consistent(),
    ensures
        s.deliver(name, fields).consistent(),
        s.deliver(name, fields).clients.dom() == s.clients.dom(),
{
    let t = s.deliver(name, fields);
    assert(t.clients.dom() =~= s.clients.dom());
    assert forall|other: Seq<char>| t.listed(other) == t.queued(other) by {
        assert(s.listed(other) == s.queued(other));
    }
    assert forall|other: Seq<char>, client: usize| t.subscribed(other, client) == t.watching(
        client,
        other,
    ) by {
        assert(s.subscribed(other, client) == s.watching(client, other));
        assert(s.subscribed(name, client) == s.watching(client, name));
    }
}

} // verus!
