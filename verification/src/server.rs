//! The broker: the single owner of the client table, the subscription index
//! and the polling queue.
//!
//! The broker never blocks and never performs input or output. Its caller
//! feeds it the messages of the sessions, asks it which hash to read next,
//! reads that hash from the backing store, and hands the broker what it read;
//! the broker answers with the frames to send.

pub mod client;
pub mod reachable;
pub mod model;
pub mod redis_hash;

use std::collections::HashMap;
use std::collections::HashSet;
use std::collections::VecDeque;
use vstd::prelude::*;
use vstd::std_specs::hash::*;
use vstd::std_specs::iter::IteratorSpec;
use crate::server::client::{update_frame, updated_caches, CacheView, Client, JsonMessage};
use crate::server::model::{
    lemma_connect_consistent, lemma_deliver_consistent, lemma_drop_all_consistent,
    lemma_poll_consistent, lemma_request_all_consistent, lemma_without_client_consistent,
    BrokerState, PollOutcome,
};
use crate::server::redis_hash::RedisHash;
use crate::session::client_action::{ClientAction, ClientActions};
use crate::string_map::{texts, StringMap};

verus! {

/// What a session tells the broker.
#[derive(Debug)]
pub enum SessionMessages {
    /// The session has ended.
    Disconnect,
    /// The session has begun.
    Connect,
    /// The session's client asks for something.
    Action(ClientAction),
}

/// A message from the session of the client `id`.
#[derive(Debug)]
pub struct SessionMessage {
    pub id: usize,
    pub message: SessionMessages,
}

/// What the broker found at the head of its queue.
#[derive(Debug)]
pub enum Poll {
    /// The queue is empty.
    Idle,
    /// The hash has no subscriber any more; it was dropped from the index
    /// and is not to be read.
    Pruned(String),
    /// The hash is to be read from the backing store now.
    Fetch(String),
}

impl View for Poll {
    type V = PollOutcome;

    open spec fn view(&self) -> PollOutcome {
        match self {
            Poll::Idle => PollOutcome::Idle,
            Poll::Pruned(name) => PollOutcome::Pruned(name@),
            Poll::Fetch(name) => PollOutcome::Fetch(name@),
        }
    }
}

/// A frame and the client it is for.
#[derive(Debug)]
pub struct Delivery {
    pub client_id: usize,
    pub message: JsonMessage,
}

/// The state after a session message.
pub open spec fn after_message(state: BrokerState, message: SessionMessage) -> BrokerState {
    match message.message {
        SessionMessages::Disconnect => state.disconnect(message.id),
        SessionMessages::Connect => state.connect(message.id),
        SessionMessages::Action(action) => match action.action {
            ClientActions::Request => state.request(message.id, action.hash_names.names()),
            ClientActions::Drop => state.drop_names(message.id, action.hash_names.names()),
        },
    }
}

/// The state after the inbox was looked at: after the message, where there
/// was one.
pub open spec fn after_inbox(state: BrokerState, message: Option<SessionMessage>) -> BrokerState {
    match message {
        Some(message) => after_message(state, message),
        None => state,
    }
}

/// The list of frames has one for the client `id`.
pub open spec fn has_frame(frames: Seq<Delivery>, id: usize) -> bool {
    exists|i: int| 0 <= i < frames.len() && #[trigger] frames[i].client_id == id
}

/// `frames` are the frames to send when `fields` was read for `name`: every
/// frame is the one that its client is owed, every client that is owed a
/// frame has one, and no client has two.
pub open spec fn frames_owed(
    state: BrokerState,
    name: Seq<char>,
    fields: Map<Seq<char>, Seq<char>>,
    frames: Seq<Delivery>,
) -> bool {
    &&& forall|i: int|
        0 <= i < frames.len() ==> state.frame_for((#[trigger] frames[i]).client_id, name, fields)
            == Some(frames[i].message.string@)
    &&& forall|id: usize|
        (#[trigger] state.frame_for(id, name, fields)) is Some ==> has_frame(frames, id)
    &&& forall|i: int, j: int|
        0 <= i < frames.len() && 0 <= j < frames.len() && i != j ==> frames[i].client_id
            != frames[j].client_id
}

/// The broker.
#[derive(Debug)]
pub struct RedisHashBroker {
    next_client_id: usize,
    clients: HashMap<usize, Client>,
    hashrequest_clients: StringMap<HashSet<usize>>,
    hashrequest_queue: VecDeque<String>,
}

impl View for RedisHashBroker {
    type V = BrokerState;

    closed spec fn view(&self) -> BrokerState {
        BrokerState {
            clients: self.clients@.map_values(|client: Client| client@),
            subscribers: self.hashrequest_clients@.map_values(|ids: HashSet<usize>| ids@),
            queue: texts(self.hashrequest_queue@),
        }
    }
}

impl Default for RedisHashBroker {
    /// A broker that has seen nothing yet.
    fn default() -> (broker: RedisHashBroker)
        ensures
            broker.wf(),
            broker@ == BrokerState::init(),
            broker.next_id() == 0,
    {
        RedisHashBroker::new()
    }
}

impl RedisHashBroker {
    /// Every record that the broker holds is well-formed, and so is the
    /// index.
    pub closed spec fn wf(&self) -> bool {
        &&& forall|id: usize| #[trigger]
            self.clients@.contains_key(id) ==> self.clients@[id].wf()
        &&& self.hashrequest_clients.wf()
    }

    /// The id that the next client gets.
    pub closed spec fn next_id(&self) -> usize {
        self.next_client_id
    }

    /// A broker that has seen nothing yet.
    pub fn new() -> (broker: RedisHashBroker)
        ensures
            broker.wf(),
            broker@ == BrokerState::init(),
            broker.next_id() == 0,
    {
        broadcast use group_hash_axioms;

        let broker = RedisHashBroker {
            next_client_id: 0,
            clients: HashMap::new(),
            hashrequest_clients: StringMap::new(),
            hashrequest_queue: VecDeque::new(),
        };
        proof {
            assert(broker@.clients =~= BrokerState::init().clients);
            assert(broker@.subscribers =~= BrokerState::init().subscribers);
            assert(broker@.queue =~= BrokerState::init().queue);
        }
        broker
    }

    /// The id that the next client gets.
    pub fn next_client_id(&self) -> (id: usize)
        ensures
            id == self.next_id(),
    {
        self.next_client_id
    }

    /// Hands out a client id that was not handed out before.
    pub fn take_next_client_id(&mut self) -> (id: usize)
        requires
            old(self).next_id() < usize::MAX,
        ensures
            id == old(self).next_id(),
            final(self).next_id() == id + 1,
            final(self)@ == old(self)@,
            old(self).wf() ==> final(self).wf(),
    {
        let id = self.next_client_id;
        self.next_client_id = id + 1;
        id
    }

    /// Whether a client is connected under `id`.
    pub fn is_connected(&self, id: usize) -> (b: bool)
        ensures
            b == self@.clients.contains_key(id),
    {
        broadcast use group_hash_axioms;

        self.clients.contains_key(&id)
    }

    /// The record of the client `id`, if one is connected under that id.
    pub fn client(&self, id: usize) -> (r: Option<&Client>)
        requires
            self.wf(),
        ensures
            match r {
                Some(client) => client.wf() && self@.clients.contains_key(id) && client@
                    == self@.clients[id],
                None => !self@.clients.contains_key(id),
            },
    {
        broadcast use group_hash_axioms;

        self.clients.get(&id)
    }

    /// How many hashes wait to be read.
    pub fn queue_len(&self) -> (n: usize)
        ensures
            n == self@.queue.len(),
    {
        self.hashrequest_queue.len()
    }

    /// Whether the hash `name` waits to be read.
    pub fn is_queued(&self, name: &String) -> (b: bool)
        ensures
            b == self@.queue.contains(name@),
    {
        let mut i: usize = 0;
        while i < self.hashrequest_queue.len()
            invariant
                i <= self.hashrequest_queue@.len(),
                forall|j: int| 0 <= j < i ==> self@.queue[j] != name@,
            decreases self.hashrequest_queue@.len() - i,
        {
            if self.hashrequest_queue[i] == *name {
                assert(self@.queue[i as int] == name@);
                return true;
            }
            i += 1;
        }
        false
    }

    /// Whether the index lists the client `id` under the hash `name`.
    pub fn is_subscribed(&self, name: &String, id: usize) -> (b: bool)
        requires
            self.wf(),
        ensures
            b == self@.subscribed(name@, id),
    {
        match self.hashrequest_clients.get(name) {
            Some(ids) => ids.contains(&id),
            None => false,
        }
    }

    /// Takes `id` out of every subscriber set.
    fn purge(&mut self, id: usize)
        requires
            old(self).wf(),
        ensures
            final(self).wf(),
            final(self)@.subscribers == old(self)@.subscribers.map_values(
                |ids: Set<usize>| ids.remove(id),
            ),
            final(self).clients == old(self).clients,
            final(self).hashrequest_queue == old(self).hashrequest_queue,
            final(self).next_client_id == old(self).next_client_id,
    {
        broadcast use group_hash_axioms;

        let ghost before = *self;
        let n = self.hashrequest_clients.len();
        let mut i: usize = 0;
        while i < n
            invariant
                i <= n,
                n == self.hashrequest_clients.keys().len(),
                self.hashrequest_clients.wf(),
                self.hashrequest_clients.keys() == before.hashrequest_clients.keys(),
                before.hashrequest_clients.wf(),
                forall|j: int|
                    0 <= j < i ==> (#[trigger] self.hashrequest_clients.values()[j])@
                        == before.hashrequest_clients.values()[j]@.remove(id),
                forall|j: int|
                    i <= j < n ==> #[trigger] self.hashrequest_clients.values()[j]
                        == before.hashrequest_clients.values()[j],
                self.clients == before.clients,
                self.hashrequest_queue == before.hashrequest_queue,
                self.next_client_id == before.next_client_id,
            decreases n - i,
        {
            let mut ids = self.hashrequest_clients.replace_at(i, HashSet::new());
            ids.remove(&id);
            self.hashrequest_clients.replace_at(i, ids);
            i += 1;
        }
        proof {
            let target = before@.subscribers.map_values(|ids: Set<usize>| ids.remove(id));
            let now = self.hashrequest_clients;
            let was = before.hashrequest_clients;
            assert forall|name: Seq<char>| #[trigger] now@.contains_key(name) implies {
                &&& was@.contains_key(name)
                &&& now@[name]@ == was@[name]@.remove(id)
            } by {
                let j = self.hashrequest_clients.lemma_place(name);
                before.hashrequest_clients.lemma_entry(j);
            }
            assert forall|name: Seq<char>| #[trigger]
                was@.contains_key(name) implies now@.contains_key(name) by {
                let j = before.hashrequest_clients.lemma_place(name);
                self.hashrequest_clients.lemma_entry(j);
            }
            assert(self@.subscribers =~= target);
        }
    }

    /// Folds a session message into the state.
    ///
    /// A connect gives the id a fresh record; a disconnect removes the record
    /// and the id's subscriptions; a request or a drop changes what the
    /// client watches. A request or a drop under an id that is not connected
    /// changes nothing.
    pub fn handle(&mut self, message: SessionMessage)
        requires
            old(self).wf(),
        ensures
            final(self).wf(),
            final(self)@ == after_message(old(self)@, message),
            final(self).next_id() == old(self).next_id(),
            old(self)@.consistent() ==> final(self)@.consistent(),
    {
        let ghost before = self@;
        let id = message.id;
        match message.message {
            SessionMessages::Disconnect => {
                self.disconnect(id);
                proof {
                    if before.consistent() {
                        lemma_without_client_consistent(before, id);
                    }
                }
            },
            SessionMessages::Connect => {
                self.connect(id);
                proof {
                    if before.consistent() {
                        lemma_connect_consistent(before, id);
                    }
                }
            },
            SessionMessages::Action(action) => {
                let ghost names = action.hash_names.names();
                if self.is_connected(id) {
                    let n = action.hash_names.len();
                    match action.action {
                        ClientActions::Request => {
                            let mut i: usize = 0;
                            while i < n
                                invariant
                                    i <= n,
                                    n == names.len(),
                                    names == action.hash_names.names(),
                                    self.wf(),
                                    before.clients.contains_key(id),
                                    self@.clients.contains_key(id),
                                    self@ == before.request_all(id, names.subrange(0, i as int)),
                                    self.next_id() == old(self).next_id(),
                                decreases n - i,
                            {
                                self.request_one(id, action.hash_names.name_at(i));
                                proof {
                                    let longer = names.subrange(0, i + 1);
                                    assert(longer.drop_last() =~= names.subrange(0, i as int));
                                    assert(longer.last() == names[i as int]);
                                }
                                i += 1;
                            }
                            proof {
                                assert(names.subrange(0, n as int) =~= names);
                                if before.consistent() {
                                    lemma_request_all_consistent(before, id, names);
                                }
                            }
                        },
                        ClientActions::Drop => {
                            let mut i: usize = 0;
                            while i < n
                                invariant
                                    i <= n,
                                    n == names.len(),
                                    names == action.hash_names.names(),
                                    self.wf(),
                                    before.clients.contains_key(id),
                                    self@.clients.contains_key(id),
                                    self@ == before.drop_all(id, names.subrange(0, i as int)),
                                    self.next_id() == old(self).next_id(),
                                decreases n - i,
                            {
                                self.drop_one(id, action.hash_names.name_at(i));
                                proof {
                                    let longer = names.subrange(0, i + 1);
                                    assert(longer.drop_last() =~= names.subrange(0, i as int));
                                    assert(longer.last() == names[i as int]);
                                }
                                i += 1;
                            }
                            proof {
                                assert(names.subrange(0, n as int) =~= names);
                                if before.consistent() {
                                    lemma_drop_all_consistent(before, id, names);
                                }
                            }
                        },
                    }
                }
            },
        }
    }

    /// A client connects under `id`.
    fn connect(&mut self, id: usize)
        requires
            old(self).wf(),
        ensures
            final(self).wf(),
            final(self)@ == old(self)@.connect(id),
            final(self).next_id() == old(self).next_id(),
    {
        broadcast use group_hash_axioms;

        let ghost before = *self;
        self.purge(id);
        self.clients.insert(id, Client::new());
        proof {
            assert(self@.clients =~= before@.connect(id).clients);
            assert(self@.queue == before@.queue);
        }
    }

    /// The client `id` disconnects.
    fn disconnect(&mut self, id: usize)
        requires
            old(self).wf(),
        ensures
            final(self).wf(),
            final(self)@ == old(self)@.disconnect(id),
            final(self).next_id() == old(self).next_id(),
    {
        broadcast use group_hash_axioms;

        let ghost before = *self;
        self.clients.remove(&id);
        self.purge(id);
        proof {
            assert(self@.clients =~= before@.disconnect(id).clients);
            assert(self@.queue == before@.queue);
        }
    }

    /// The connected client `id` asks for the hash `name`.
    fn request_one(&mut self, id: usize, name: &String)
        requires
            old(self).wf(),
            old(self)@.clients.contains_key(id),
        ensures
            final(self).wf(),
            final(self)@ == old(self)@.request_one(id, name@),
            final(self)@.clients.contains_key(id),
            final(self).next_id() == old(self).next_id(),
    {
        broadcast use group_hash_axioms;

        let ghost before = *self;
        match self.clients.remove(&id) {
            Some(client) => {
                let mut client = client;
                client.handle_request(name);
                self.clients.insert(id, client);
            },
            None => {},
        }
        assert(self@.clients =~= before@.request_one(id, name@).clients);
        match self.hashrequest_clients.position(name) {
            Some(i) => {
                proof {
                    self.hashrequest_clients.lemma_entry(i as int);
                }
                let mut ids = self.hashrequest_clients.replace_at(i, HashSet::new());
                ids.insert(id);
                self.hashrequest_clients.replace_at(i, ids);
            },
            None => {
                let mut ids: HashSet<usize> = HashSet::new();
                ids.insert(id);
                self.hashrequest_clients.insert(name.clone(), ids);
            },
        }
        assert(self@.subscribers =~= before@.request_one(id, name@).subscribers);
        if !self.is_queued(name) {
            self.hashrequest_queue.push_back(name.clone());
            assert(self@.queue =~= before@.queue.push(name@));
        }
    }

    /// The connected client `id` drops the hash `name`.
    fn drop_one(&mut self, id: usize, name: &String)
        requires
            old(self).wf(),
            old(self)@.clients.contains_key(id),
        ensures
            final(self).wf(),
            final(self)@ == old(self)@.drop_one(id, name@),
            final(self)@.clients.contains_key(id),
            final(self).next_id() == old(self).next_id(),
    {
        broadcast use group_hash_axioms;

        let ghost before = *self;
        match self.clients.remove(&id) {
            Some(client) => {
                let mut client = client;
                client.handle_drop(name);
                self.clients.insert(id, client);
            },
            None => {},
        }
        assert(self@.clients =~= before@.drop_one(id, name@).clients);
        match self.hashrequest_clients.position(name) {
            Some(i) => {
                proof {
                    self.hashrequest_clients.lemma_entry(i as int);
                }
                let mut ids = self.hashrequest_clients.replace_at(i, HashSet::new());
                ids.remove(&id);
                self.hashrequest_clients.replace_at(i, ids);
            },
            None => {},
        }
        assert(self@.subscribers =~= before@.drop_one(id, name@).subscribers);
    }

    /// Takes the next hash off the queue and says what is to be done with
    /// it.
    ///
    /// A hash with subscribers goes back to the tail of the queue at once, so
    /// it stays scheduled whatever becomes of the read. A hash without
    /// subscribers leaves the index and the queue.
    pub fn poll(&mut self) -> (r: Poll)
        requires
            old(self).wf(),
        ensures
            final(self).wf(),
            final(self)@ == old(self)@.poll(),
            r@ == old(self)@.poll_outcome(),
            final(self).next_id() == old(self).next_id(),
            old(self)@.consistent() ==> final(self)@.consistent(),
    {
        let ghost before = *self;
        proof {
            if before@.consistent() {
                lemma_poll_consistent(before@);
            }
        }
        match self.hashrequest_queue.pop_front() {
            None => Poll::Idle,
            Some(name) => {
                assert(name@ == before@.queue[0]);
                assert(self@.queue =~= before@.queue.subrange(1, before@.queue.len() as int));
                let live = match self.hashrequest_clients.get(&name) {
                    Some(ids) => !ids.is_empty(),
                    None => false,
                };
                if live {
                    self.hashrequest_queue.push_back(name.clone());
                    assert(self@.queue =~= before@.queue.subrange(
                        1,
                        before@.queue.len() as int,
                    ).push(name@));
                    Poll::Fetch(name)
                } else {
                    self.hashrequest_clients.remove(&name);
                    assert(self@.subscribers =~= before@.subscribers.remove(name@));
                    Poll::Pruned(name)
                }
            },
        }
    }

    /// One turn of the broker's loop: folds in one message, if there is one,
    /// and then polls the queue once. However long the queue is, a message
    /// waits for one poll at most; however many messages wait, a hash waits
    /// for one message at most.
    pub fn tick(&mut self, message: Option<SessionMessage>) -> (r: Poll)
        requires
            old(self).wf(),
        ensures
            final(self).wf(),
            final(self)@ == after_inbox(old(self)@, message).poll(),
            r@ == after_inbox(old(self)@, message).poll_outcome(),
            final(self).next_id() == old(self).next_id(),
            old(self)@.consistent() ==> final(self)@.consistent(),
    {
        match message {
            Some(message) => self.handle(message),
            None => {},
        }
        self.poll()
    }

    /// Hands the client `id`, if it is connected, what was read for a hash,
    /// and gives back the frame that it is owed, if any.
    fn serve(&mut self, id: usize, snapshot: &RedisHash) -> (frame: Option<JsonMessage>)
        requires
            old(self).wf(),
            snapshot.wf(),
        ensures
            final(self).wf(),
            final(self).hashrequest_clients == old(self).hashrequest_clients,
            final(self).hashrequest_queue == old(self).hashrequest_queue,
            final(self).next_client_id == old(self).next_client_id,
            final(self)@.clients == (if old(self)@.clients.contains_key(id) {
                old(self)@.clients.insert(
                    id,
                    updated_caches(old(self)@.clients[id], snapshot.name@, snapshot.contents@),
                )
            } else {
                old(self)@.clients
            }),
            old(self)@.clients.contains_key(id) ==> match update_frame(
                old(self)@.clients[id],
                snapshot.name@,
                snapshot.contents@,
            ) {
                Some(text) => frame matches Some(message) && message.string@ == text,
                None => frame is None,
            },
            !old(self)@.clients.contains_key(id) ==> frame is None,
    {
        broadcast use group_hash_axioms;

        let ghost before = *self;
        match self.clients.remove(&id) {
            Some(client) => {
                let mut client = client;
                let frame = client.update_hash(snapshot);
                self.clients.insert(id, client);
                assert(self@.clients =~= before@.clients.insert(
                    id,
                    updated_caches(before@.clients[id], snapshot.name@, snapshot.contents@),
                ));
                frame
            },
            None => {
                assert(self@.clients =~= before@.clients);
                None
            },
        }
    }

    /// Takes in what was read for a hash and hands back the frames to send.
    ///
    /// Every client that subscribes to the hash and is connected remembers
    /// the contents; each of them that has not seen these contents yet gets
    /// one frame, and nobody else gets any.
    pub fn deliver(&mut self, snapshot: &RedisHash) -> (frames: Vec<Delivery>)
        requires
            old(self).wf(),
            snapshot.wf(),
        ensures
            final(self).wf(),
            final(self)@ == old(self)@.deliver(snapshot.name@, snapshot.contents@),
            frames_owed(old(self)@, snapshot.name@, snapshot.contents@, frames@),
            final(self).next_id() == old(self).next_id(),
            old(self)@.consistent() ==> final(self)@.consistent(),
    {
        let ghost before = *self;
        let ghost name = snapshot.name@;
        let ghost fields = snapshot.contents@;
        proof {
            if before@.consistent() {
                lemma_deliver_consistent(before@, name, fields);
            }
        }
        let mut frames: Vec<Delivery> = Vec::new();
        match self.hashrequest_clients.position(&snapshot.name) {
            None => {
                proof {
                    assert(before@.watchers(name) == Set::<usize>::empty());
                    assert(self@.clients =~= before@.deliver(name, fields).clients);
                }
            },
            Some(place) => {
                proof {
                    self.hashrequest_clients.lemma_entry(place as int);
                }
                let subscribers = subscriber_list(self.hashrequest_clients.value_at(place));
                let ghost ids = subscribers@;
                let n = subscribers.len();
                let mut k: usize = 0;
                while k < n
                    invariant
                        k <= n,
                        n == ids.len(),
                        ids.no_duplicates(),
                        ids.to_set() == before@.watchers(name),
                        ids == subscribers@,
                        name == snapshot.name@,
                        fields == snapshot.contents@,
                        snapshot.wf(),
                        self.wf(),
                        self.hashrequest_clients == before.hashrequest_clients,
                        self.hashrequest_queue == before.hashrequest_queue,
                        self.next_client_id == before.next_client_id,
                        self@.clients == served_records(
                            before@,
                            ids.subrange(0, k as int),
                            name,
                            fields,
                        ),
                        served_frames(before@, ids.subrange(0, k as int), name, fields, frames@),
                    decreases n - k,
                {
                    let id = subscribers[k];
                    let ghost sent = frames@;
                    let ghost now = self@;
                    match self.serve(id, snapshot) {
                        Some(message) => {
                            frames.push(Delivery { client_id: id, message });
                        },
                        None => {},
                    }
                    proof {
                        lemma_serve_step(before@, ids, k as int, name, fields, now.clients, sent);
                        assert(frames@.len() > sent.len() ==> frames@.drop_last() =~= sent);
                    }
                    k += 1;
                }
                proof {
                    assert(ids.subrange(0, n as int) =~= ids);
                    lemma_served_all(before@, ids, name, fields, frames@);
                }
            },
        }
        frames
    }
}

/// The members of a subscriber set as a list, each once.
fn subscriber_list(ids: &HashSet<usize>) -> (list: Vec<usize>)
    ensures
        list@.no_duplicates(),
        list@.to_set() == ids@,
{
    broadcast use group_hash_axioms;

    let ghost all = spec_hash_keys_iter(ids).remaining();
    proof {
        axiom_spec_hash_keys_iter(ids);
    }
    let mut list: Vec<usize> = Vec::new();
    for id in walk: ids.iter()
        invariant
            walk.seq() == all,
            list@ == walk.history().unref(),
    {
        list.push(*id);
    }
    proof {
        assert(list@ =~= all.unref());
        assert forall|i: int, j: int|
            0 <= i < list@.len() && 0 <= j < list@.len() && i != j implies list@[i]
            != list@[j] by {
            assert(all[i] != all[j]);
        }
    }
    list
}

/// The records of the clients after those of `served` were handed what was
/// read for a hash.
spec fn served_records(
    state: BrokerState,
    served: Seq<usize>,
    name: Seq<char>,
    fields: Map<Seq<char>, Seq<char>>,
) -> Map<usize, CacheView> {
    Map::new(
        |id: usize| state.clients.contains_key(id),
        |id: usize|
            if served.contains(id) {
                updated_caches(state.clients[id], name, fields)
            } else {
                state.clients[id]
            },
    )
}

/// `frames` holds the frames that the clients of `served` are owed, one
/// each, and no other.
spec fn served_frames(
    state: BrokerState,
    served: Seq<usize>,
    name: Seq<char>,
    fields: Map<Seq<char>, Seq<char>>,
    frames: Seq<Delivery>,
) -> bool {
    &&& forall|i: int|
        0 <= i < frames.len() ==> served.contains((#[trigger] frames[i]).client_id)
            && state.frame_for(frames[i].client_id, name, fields) == Some(
            frames[i].message.string@,
        )
    &&& forall|j: int|
        0 <= j < served.len() && state.frame_for(#[trigger] served[j], name, fields) is Some
            ==> has_frame(frames, served[j])
    &&& forall|i: int, j: int|
        0 <= i < frames.len() && 0 <= j < frames.len() && i != j ==> frames[i].client_id
            != frames[j].client_id
}

/// Serving the next subscriber extends what `served_records` and
/// `served_frames` say by that subscriber.
proof fn lemma_serve_step(
    state: BrokerState,
    ids: Seq<usize>,
    k: int,
    name: Seq<char>,
    fields: Map<Seq<char>, Seq<char>>,
    records: Map<usize, CacheView>,
    sent: Seq<Delivery>,
)
    requires
        0 <= k < ids.len(),
        ids.no_duplicates(),
        ids.to_set() == state.watchers(name),
        records == served_records(state, ids.subrange(0, k), name, fields),
        served_frames(state, ids.subrange(0, k), name, fields, sent),
    ensures
        records.contains_key(ids[k]) == state.clients.contains_key(ids[k]),
        records.contains_key(ids[k]) ==> records[ids[k]] == state.clients[ids[k]],
        (if state.clients.contains_key(ids[k]) {
            records.insert(ids[k], updated_caches(state.clients[ids[k]], name, fields))
        } else {
            records
        }) == served_records(state, ids.subrange(0, k + 1), name, fields),
        state.frame_for(ids[k], name, fields) == (if state.clients.contains_key(ids[k]) {
            update_frame(state.clients[ids[k]], name, fields)
        } else {
            None
        }),
        state.frame_for(ids[k], name, fields) is None ==> served_frames(
            state,
            ids.subrange(0, k + 1),
            name,
            fields,
            sent,
        ),
        forall|longer: Seq<Delivery>|
            longer.len() == sent.len() + 1 && #[trigger] longer.drop_last() == sent
                && longer.last().client_id == ids[k] && state.frame_for(ids[k], name, fields)
                == Some(longer.last().message.string@) ==> served_frames(
                state,
                ids.subrange(0, k + 1),
                name,
                fields,
                longer,
            ),
{
    let id = ids[k];
    let seen = ids.subrange(0, k);
    let seen_next = ids.subrange(0, k + 1);
    assert(seen_next =~= seen.push(id));
    assert(!seen.contains(id));
    assert(seen_next[k] == id);
    assert forall|other: usize| seen.contains(other) implies seen_next.contains(other) by {
        let j = choose|j: int| 0 <= j < seen.len() && seen[j] == other;
        assert(seen_next[j] == other);
    }
    assert forall|other: usize| seen_next.contains(other) && other != id implies seen.contains(
        other,
    ) by {
        let j = choose|j: int| 0 <= j < seen_next.len() && seen_next[j] == other;
        assert(seen[j] == other);
    }
    assert(ids.to_set().contains(id));
    assert(state.recipients(name).contains(id) == state.clients.contains_key(id));
    let next = if state.clients.contains_key(id) {
        records.insert(id, updated_caches(state.clients[id], name, fields))
    } else {
        records
    };
    assert(next =~= served_records(state, seen_next, name, fields));
    assert forall|longer: Seq<Delivery>|
        longer.len() == sent.len() + 1 && #[trigger] longer.drop_last() == sent
            && longer.last().client_id == id && state.frame_for(id, name, fields) == Some(
            longer.last().message.string@,
        ) implies served_frames(state, seen_next, name, fields, longer) by {
        assert forall|i: int| 0 <= i < sent.len() implies longer[i] == sent[i] by {
            assert(longer.drop_last()[i] == longer[i]);
        }
        assert forall|j: int|
            0 <= j < seen_next.len() && state.frame_for(#[trigger] seen_next[j], name, fields)
                is Some implies has_frame(longer, seen_next[j]) by {
            if j < k {
                assert(seen[j] == seen_next[j]);
                assert(has_frame(sent, seen[j]));
                let i = choose|i: int|
                    0 <= i < sent.len() && #[trigger] sent[i].client_id == seen[j];
                assert(longer[i].client_id == seen_next[j]);
            } else {
                assert(longer[sent.len() as int].client_id == id);
            }
        }
    }
    if state.frame_for(id, name, fields) is None {
        assert forall|j: int|
            0 <= j < seen_next.len() && state.frame_for(#[trigger] seen_next[j], name, fields)
                is Some implies has_frame(sent, seen_next[j]) by {
            assert(seen[j] == seen_next[j]);
        }
    }
}

/// Once every subscriber of a hash was served, the records are those after
/// the delivery and the frames are those owed.
proof fn lemma_served_all(
    state: BrokerState,
    ids: Seq<usize>,
    name: Seq<char>,
    fields: Map<Seq<char>, Seq<char>>,
    frames: Seq<Delivery>,
)
    requires
        ids.to_set() == state.watchers(name),
        served_frames(state, ids, name, fields, frames),
    ensures
        served_records(state, ids, name, fields) == state.deliver(name, fields).clients,
        frames_owed(state, name, fields, frames),
{
    assert forall|id: usize| state.clients.contains_key(id) implies (ids.contains(id)
        == state.recipients(name).contains(id)) by {
        assert(ids.to_set().contains(id) == ids.contains(id));
    }
    assert(served_records(state, ids, name, fields) =~= state.deliver(name, fields).clients);
    assert forall|id: usize|
        (#[trigger] state.frame_for(id, name, fields)) is Some implies has_frame(frames, id) by {
        assert(state.recipients(name).contains(id));
        assert(ids.to_set().contains(id));
        let j = choose|j: int| 0 <= j < ids.len() && ids[j] == id;
        assert(state.frame_for(ids[j], name, fields) is Some);
    }
}

} // verus!
