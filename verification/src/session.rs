//! What the session of one client decides.
//!
//! A session stands between one socket and the broker. It performs no input
//! or output itself: its caller hands it each frame that arrives and the
//! time, and carries out the reaction that it is handed back.

pub mod client_action;

use vstd::prelude::*;
use crate::json::ParseError;
use crate::server::{SessionMessage, SessionMessages};
use crate::session::client_action::{parse_answer, ClientAction};

verus! {

/// How often a ping is sent to the client, in nanoseconds: five seconds.
pub const HEARTBEAT_INTERVAL: u64 = 5_000_000_000;

/// How long a client may stay silent before its session ends, in
/// nanoseconds: ten seconds.
pub const CLIENT_TIMEOUT: u64 = 10_000_000_000;

/// A frame from the client, or the failure to read one.
#[derive(Debug)]
pub enum Incoming {
    Ping(Vec<u8>),
    Pong,
    Text(String),
    Binary,
    Close,
    Continuation,
    Nop,
    ProtocolError,
}

/// What the caller is to do after a frame.
#[derive(Debug)]
pub enum Reaction {
    /// Nothing.
    Ignore,
    /// Answer the ping with a pong that carries the same bytes.
    Pong(Vec<u8>),
    /// Hand the message to the broker.
    Forward(SessionMessage),
    /// Send the text to the client and keep the connection open.
    Reply(String),
    /// Close the connection and end the session.
    Close,
    /// End the session.
    Stop,
}

/// What the caller is to do when the heartbeat timer fires.
#[derive(Clone, Copy, Debug, PartialEq, Eq, Structural)]
pub enum Heartbeat {
    /// The client was heard of in time: send it a ping.
    Ping,
    /// The client was silent for too long: end the session.
    TimedOut,
}

/// The session of one client.
#[derive(Debug)]
pub struct WsChatSession {
    /// The id of the client.
    pub id: usize,
    /// When the client was last heard of, in nanoseconds on the caller's
    /// clock.
    pub hb: u64,
}

/// The text that reports an error to the client.
pub open spec fn error_reply(error: ParseError) -> Seq<char> {
    "!!! "@ + error.description_text()
}

/// The nanoseconds from `earlier` to `now`; none where `now` is the earlier
/// of the two.
pub open spec fn elapsed(now: u64, earlier: u64) -> int {
    if now >= earlier {
        now - earlier
    } else {
        0
    }
}

/// The reaction to a text frame, given what it was decoded to: a request goes
/// to the broker under the client's id, an error goes back to the client.
pub fn reaction_to(id: usize, decoded: Result<ClientAction, ParseError>) -> (reaction: Reaction)
    ensures
        match decoded {
            Ok(action) => reaction == Reaction::Forward(
                SessionMessage { id, message: SessionMessages::Action(action) },
            ),
            Err(error) => reaction matches Reaction::Reply(text) && text@ == error_reply(error),
        },
{
    match decoded {
        Ok(action) => Reaction::Forward(
            SessionMessage { id, message: SessionMessages::Action(action) },
        ),
        Err(error) => {
            let mut text = String::from_str("!!! ");
            text.append(error.description().as_str());
            Reaction::Reply(text)
        },
    }
}

impl WsChatSession {
    /// The session of the client `id`, begun at the time `now`.
    pub fn new(id: usize, now: u64) -> (session: WsChatSession)
        ensures
            session.id == id,
            session.hb == now,
    {
        WsChatSession { id, hb: now }
    }

    /// The message that tells the broker that the session has begun.
    pub fn started(&self) -> (message: SessionMessage)
        ensures
            message.id == self.id,
            message.message is Connect,
    {
        SessionMessage { id: self.id, message: SessionMessages::Connect }
    }

    /// The message that tells the broker that the session has ended.
    pub fn stopping(&self) -> (message: SessionMessage)
        ensures
            message.id == self.id,
            message.message is Disconnect,
    {
        SessionMessage { id: self.id, message: SessionMessages::Disconnect }
    }

    /// What to do when the heartbeat timer fires at the time `now`: the
    /// session has timed out where the client was last heard of more than
    /// `CLIENT_TIMEOUT` ago.
    pub fn hb(&self, now: u64) -> (r: Heartbeat)
        ensures
            r == (if elapsed(now, self.hb) > CLIENT_TIMEOUT {
                Heartbeat::TimedOut
            } else {
                Heartbeat::Ping
            }),
    {
        if now >= self.hb && now - self.hb > CLIENT_TIMEOUT {
            Heartbeat::TimedOut
        } else {
            Heartbeat::Ping
        }
    }

    /// Takes in a frame that arrived at the time `now` and says what to do.
    ///
    /// A ping or a pong counts as a sign of life. A text is decoded as a
    /// request: a request goes to the broker, and a text that is none is
    /// answered with a line that begins with `!!! `; the connection stays
    /// open. A close, a continuation or a protocol error ends the session.
    pub fn handle(&mut self, frame: Incoming, now: u64) -> (reaction: Reaction)
        ensures
            final(self).id == old(self).id,
            final(self).hb == (if frame is Ping || frame is Pong {
                now
            } else {
                old(self).hb
            }),
            match frame {
                Incoming::Ping(bytes) => reaction == Reaction::Pong(bytes),
                Incoming::Pong | Incoming::Binary | Incoming::Nop => reaction is Ignore,
                Incoming::Close => reaction is Close,
                Incoming::Continuation | Incoming::ProtocolError => reaction is Stop,
                Incoming::Text(text) => match reaction {
                    Reaction::Forward(message) => {
                        &&& message.id == old(self).id
                        &&& message.message matches SessionMessages::Action(action)
                        &&& parse_answer(text@, Ok(action))
                    },
                    Reaction::Reply(reply) => exists|error: ParseError|
                        #[trigger] parse_answer(text@, Err(error)) && reply@ == error_reply(error),
                    _ => false,
                },
            },
    {
        match frame {
            Incoming::Ping(bytes) => {
                self.hb = now;
                Reaction::Pong(bytes)
            },
            Incoming::Pong => {
                self.hb = now;
                Reaction::Ignore
            },
            Incoming::Text(text) => {
                let decoded = ClientAction::parse(text.as_str());
                proof {
                    if decoded is Err {
                        assert(parse_answer(text@, Err(decoded->Err_0)));
                    }
                }
                reaction_to(self.id, decoded)
            },
            Incoming::Binary => Reaction::Ignore,
            Incoming::Close => Reaction::Close,
            Incoming::Continuation => Reaction::Stop,
            Incoming::Nop => Reaction::Ignore,
            Incoming::ProtocolError => Reaction::Stop,
        }
    }
}

} // verus!
