//! What holds of every state that a broker can reach.
//!
//! A broker starts empty and moves by three kinds of event: a message from a
//! session, a poll of the queue, and the delivery of what was read for a
//! hash. The theorems below are stated for the state after any list of events.

use vstd::prelude::*;
use crate::server::model::{
    lemma_connect_consistent, lemma_deliver_consistent, lemma_drop_all_consistent,
    lemma_drop_all_outcome, lemma_init_consistent, lemma_poll_consistent,
    lemma_request_all_consistent, lemma_request_all_outcome, lemma_without_client_consistent,
    BrokerState,
};
use crate::server::redis_hash::RedisHash;
use crate::server::{after_message, SessionMessage, SessionMessages};
use crate::session::client_action::ClientActions;

verus! {

/// One step of a broker.
pub enum BrokerEvent {
    /// A session message is folded in.
    Message(SessionMessage),
    /// The head of the queue is polled.
    Poll,
    /// What was read for a hash is delivered.
    Deliver(RedisHash),
}

/// The state after one event.
pub open spec fn after_event(state: BrokerState, event: BrokerEvent) -> BrokerState {
    match event {
        BrokerEvent::Message(message) => after_message(state, message),
        BrokerEvent::Poll => state.poll(),
        BrokerEvent::Deliver(snapshot) => state.deliver(snapshot.name@, snapshot.contents@),
    }
}

/// The state of a broker that started empty and went through `events`.
pub open spec fn after_events(events: Seq<BrokerEvent>) -> BrokerState
    decreases events.len(),
{
    if events.len() == 0 {
        BrokerState::init()
    } else {
        after_event(after_events(events.drop_last()), events.last())
    }
}

/// Among `events`, the last connect or disconnect of `id` is a connect.
pub open spec fn connected(events: Seq<BrokerEvent>, id: usize) -> bool
    decreases events.len(),
{
    if events.len() == 0 {
        false
    } else {
        match events.last() {
            BrokerEvent::Message(message) => if message.id == id && message.message
                is Connect {
                true
            } else if message.id == id && message.message is Disconnect {
                false
            } else {
                connected(events.drop_last(), id)
            },
            _ => connected(events.drop_last(), id),
        }
    }
}

/// A session message keeps a consistent state consistent, and changes the
/// set of connected clients by the sender's id at most.
pub proof fn lemma_message_consistent(state: BrokerState, message: SessionMessage)
    requires
        state.consistent(),
    ensures
        after_message(state, message).consistent(),
        after_message(state, message).clients.dom() == match message.message {
            SessionMessages::Connect => state.clients.dom().insert(message.id),
            SessionMessages::Disconnect => state.clients.dom().remove(message.id),
            SessionMessages::Action(_) => state.clients.dom(),
        },
{
    let next = after_message(state, message);
    match message.message {
        SessionMessages::Disconnect => {
            lemma_without_client_consistent(state, message.id);
            assert(next.clients.dom() =~= state.clients.dom().remove(message.id));
        },
        SessionMessages::Connect => {
            lemma_connect_consistent(state, message.id);
            assert(next.clients.dom() =~= state.clients.dom().insert(message.id));
        },
        SessionMessages::Action(action) => {
            if state.clients.contains_key(message.id) {
                match action.action {
                    ClientActions::Request => {
                        lemma_request_all_consistent(state, message.id, action.hash_names.names());
                    },
                    ClientActions::Drop => {
                        lemma_drop_all_consistent(state, message.id, action.hash_names.names());
                    },
                }
            }
        },
    }
}

/// Every state that a broker can reach is consistent.
pub proof fn theorem_reachable_consistent(events: Seq<BrokerEvent>)
    ensures
        after_events(events).consistent(),
    decreases events.len(),
{
    if events.len() == 0 {
        lemma_init_consistent();
    } else {
        let state = after_events(events.drop_last());
        theorem_reachable_consistent(events.drop_last());
        match events.last() {
            BrokerEvent::Message(message) => {
                lemma_message_consistent(state, message);
            },
            BrokerEvent::Poll => {
                lemma_poll_consistent(state);
            },
            BrokerEvent::Deliver(snapshot) => {
                lemma_deliver_consistent(state, snapshot.name@, snapshot.contents@);
            },
        }
    }
}

/// In every reachable state, a hash that the index has either has a
/// subscriber or waits in the queue, where the next poll will prune it.
pub proof fn theorem_index_entry_live(events: Seq<BrokerEvent>, name: Seq<char>)
    requires
        after_events(events).subscribers.contains_key(name),
    ensures
        after_events(events).subscribers[name] != Set::<usize>::empty() || after_events(
            events,
        ).queue.contains(name),
{
    let state = after_events(events);
    theorem_reachable_consistent(events);
    assert(state.listed(name) == state.queued(name));
}

/// In every reachable state, a client that the index lists under a hash is
/// connected, and its record has a slot for that hash.
pub proof fn theorem_subscriber_watches(events: Seq<BrokerEvent>, name: Seq<char>, id: usize)
    requires
        after_events(events).subscribers.contains_key(name),
        after_events(events).subscribers[name].contains(id),
    ensures
        after_events(events).clients.contains_key(id),
        after_events(events).clients[id].contains_key(name),
{
    let state = after_events(events);
    theorem_reachable_consistent(events);
    assert(state.subscribed(name, id) == state.watching(id, name));
}

/// In every reachable state, a connected client whose record has a slot for
/// a hash is listed under that hash in the index.
pub proof fn theorem_watcher_subscribed(events: Seq<BrokerEvent>, name: Seq<char>, id: usize)
    requires
        after_events(events).clients.contains_key(id),
        after_events(events).clients[id].contains_key(name),
    ensures
        after_events(events).subscribers.contains_key(name),
        after_events(events).subscribers[name].contains(id),
{
    let state = after_events(events);
    theorem_reachable_consistent(events);
    assert(state.subscribed(name, id) == state.watching(id, name));
}

/// In every reachable state, no hash waits twice in the queue, and every
/// hash that waits is in the index.
pub proof fn theorem_queue_distinct(events: Seq<BrokerEvent>)
    ensures
        after_events(events).queue.no_duplicates(),
        forall|name: Seq<char>| #[trigger]
            after_events(events).queue.contains(name) ==> after_events(
                events,
            ).subscribers.contains_key(name),
{
    let state = after_events(events);
    theorem_reachable_consistent(events);
    assert forall|name: Seq<char>| #[trigger]
        state.queue.contains(name) implies state.subscribers.contains_key(name) by {
        assert(state.listed(name) == state.queued(name));
    }
}

/// In every reachable state, a client has a record exactly if it connected
/// and did not disconnect since.
pub proof fn theorem_record_iff_connected(events: Seq<BrokerEvent>, id: usize)
    ensures
        after_events(events).clients.contains_key(id) <==> connected(events, id),
    decreases events.len(),
{
    if events.len() > 0 {
        let state = after_events(events.drop_last());
        theorem_record_iff_connected(events.drop_last(), id);
        theorem_reachable_consistent(events.drop_last());
        match events.last() {
            BrokerEvent::Message(message) => {
                lemma_message_consistent(state, message);
            },
            BrokerEvent::Poll => {},
            BrokerEvent::Deliver(snapshot) => {
                lemma_deliver_consistent(state, snapshot.name@, snapshot.contents@);
            },
        }
    }
}

/// A client that asks for some hashes and drops them at once is sent no
/// frame for any of them, whatever is read for the hash afterwards.
pub proof fn theorem_request_then_drop_is_silent(
    state: BrokerState,
    id: usize,
    names: Seq<Seq<char>>,
    name: Seq<char>,
    fields: Map<Seq<char>, Seq<char>>,
)
    requires
        names.contains(name),
    ensures
        state.request(id, names).drop_names(id, names).frame_for(id, name, fields) is None,
{
    if state.clients.contains_key(id) {
        let asked = state.request_all(id, names);
        lemma_request_all_outcome(state, id, names);
        assert(asked.clients.contains_key(id));
        lemma_drop_all_outcome(asked, id, names);
        assert(names.to_set().contains(name));
    }
}

/// A client that is not connected is sent no frame. In particular a client
/// that disconnected is sent nothing for a read that was under way when it
/// left.
pub proof fn theorem_no_frame_unless_connected(
    events: Seq<BrokerEvent>,
    id: usize,
    name: Seq<char>,
    fields: Map<Seq<char>, Seq<char>>,
)
    requires
        !connected(events, id),
    ensures
        after_events(events).frame_for(id, name, fields) is None,
{
    theorem_record_iff_connected(events, id);
}

/// Right after a client disconnected, no read is delivered to it.
pub proof fn theorem_disconnect_stops_delivery(
    state: BrokerState,
    id: usize,
    name: Seq<char>,
    fields: Map<Seq<char>, Seq<char>>,
)
    ensures
        state.disconnect(id).frame_for(id, name, fields) is None,
        state.disconnect(id).deliver(name, fields).frame_for(id, name, fields) is None,
{
}

} // verus!
