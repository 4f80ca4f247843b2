use redis_hash_broker::json::ParseError;
use redis_hash_broker::server::{RedisHashBroker, SessionMessages};
use redis_hash_broker::session::client_action::{ClientAction, ClientActions};
use redis_hash_broker::session::{
    reaction_to, Heartbeat, Incoming, Reaction, WsChatSession, CLIENT_TIMEOUT, HEARTBEAT_INTERVAL,
};

#[test]
fn malformed_input_is_answered_and_changes_nothing() {
    let mut broker = RedisHashBroker::new();
    let mut session = WsChatSession::new(3, 0);
    broker.handle(session.started());
    match session.handle(Incoming::Text(r#"{"drp":["h"]}"#.to_string()), 1) {
        Reaction::Reply(text) => {
            assert!(text.starts_with("!!! "));
            assert_eq!(text, "!!! unknown action `drp`, expected `drop` or `request`");
        }
        other => panic!("expected a reply, got {:?}", other),
    }
    assert!(broker.is_connected(3));
    assert_eq!(broker.queue_len(), 0);
    assert!(!broker.is_subscribed(&"h".to_string(), 3));
}

#[test]
fn text_that_is_no_json_is_answered_with_the_decoder_s_words() {
    let mut session = WsChatSession::new(3, 0);
    match session.handle(Incoming::Text("{".to_string()), 1) {
        Reaction::Reply(text) => {
            assert_eq!(text, "!!! EOF while parsing an object at line 1 column 1")
        }
        other => panic!("expected a reply, got {:?}", other),
    }
}

#[test]
fn request_text_is_forwarded_under_the_session_id() {
    let mut session = WsChatSession::new(3, 0);
    match session.handle(Incoming::Text(r#"{"request":["h","h"]}"#.to_string()), 1) {
        Reaction::Forward(message) => {
            assert_eq!(message.id, 3);
            match message.message {
                SessionMessages::Action(action) => {
                    assert_eq!(action.action, ClientActions::Request);
                    assert_eq!(action.hash_names.name_list(), &vec!["h".to_string()]);
                }
                other => panic!("expected an action, got {:?}", other),
            }
        }
        other => panic!("expected a message for the broker, got {:?}", other),
    }
    assert_eq!(session.hb, 0);
}

#[test]
fn reaction_to_a_decoded_text() {
    match reaction_to(5, ClientAction::parse(r#"{"drop":["x"]}"#)) {
        Reaction::Forward(message) => assert_eq!(message.id, 5),
        other => panic!("expected a message for the broker, got {:?}", other),
    }
    match reaction_to(5, Err(ParseError::Missing)) {
        Reaction::Reply(text) => assert_eq!(text, "!!! expected exactly one entry, found none"),
        other => panic!("expected a reply, got {:?}", other),
    }
    match reaction_to(5, Err(ParseError::Duplicate)) {
        Reaction::Reply(text) => assert_eq!(text, "!!! expected exactly one entry, found more"),
        other => panic!("expected a reply, got {:?}", other),
    }
}

#[test]
fn ping_is_answered_and_counts_as_a_sign_of_life() {
    let mut session = WsChatSession::new(1, 100);
    match session.handle(Incoming::Ping(vec![1, 2, 3]), 250) {
        Reaction::Pong(bytes) => assert_eq!(bytes, vec![1, 2, 3]),
        other => panic!("expected a pong, got {:?}", other),
    }
    assert_eq!(session.hb, 250);
    assert!(matches!(session.handle(Incoming::Pong, 400), Reaction::Ignore));
    assert_eq!(session.hb, 400);
}

#[test]
fn other_frames_leave_the_heartbeat_alone() {
    let mut session = WsChatSession::new(1, 100);
    assert!(matches!(session.handle(Incoming::Binary, 200), Reaction::Ignore));
    assert!(matches!(session.handle(Incoming::Nop, 200), Reaction::Ignore));
    assert!(matches!(session.handle(Incoming::Close, 200), Reaction::Close));
    assert!(matches!(session.handle(Incoming::Continuation, 200), Reaction::Stop));
    assert!(matches!(session.handle(Incoming::ProtocolError, 200), Reaction::Stop));
    assert_eq!(session.hb, 100);
    assert_eq!(session.id, 1);
}

#[test]
fn heartbeat_times_out_after_more_than_the_timeout() {
    let second: u64 = 1_000_000_000;
    assert_eq!(HEARTBEAT_INTERVAL, 5 * second);
    assert_eq!(CLIENT_TIMEOUT, 10 * second);
    let session = WsChatSession::new(1, second);
    assert_eq!(session.hb(second), Heartbeat::Ping);
    assert_eq!(session.hb(6 * second), Heartbeat::Ping);
    assert_eq!(session.hb(11 * second), Heartbeat::Ping);
    assert_eq!(session.hb(11 * second + 1), Heartbeat::TimedOut);
    assert_eq!(session.hb(u64::MAX), Heartbeat::TimedOut);
    assert_eq!(session.hb(0), Heartbeat::Ping);
}

#[test]
fn session_announces_its_start_and_its_end() {
    let session = WsChatSession::new(11, 0);
    let start = session.started();
    assert_eq!(start.id, 11);
    assert!(matches!(start.message, SessionMessages::Connect));
    let stop = session.stopping();
    assert_eq!(stop.id, 11);
    assert!(matches!(stop.message, SessionMessages::Disconnect));
    let mut broker = RedisHashBroker::new();
    broker.handle(start);
    assert!(broker.is_connected(11));
    broker.handle(stop);
    assert!(!broker.is_connected(11));
}

#[test]
fn text_that_repeats_its_key_is_answered_and_not_forwarded() {
    let mut broker = RedisHashBroker::new();
    let mut session = WsChatSession::new(3, 0);
    broker.handle(session.started());
    for text in [r#"{"drop":["a"],"drop":["b"]}"#, r#"{"request":["a"],"request":["b"]}"#] {
        match session.handle(Incoming::Text(text.to_string()), 1) {
            Reaction::Reply(reply) => {
                assert_eq!(reply, "!!! expected exactly one entry, found more")
            }
            other => panic!("expected a reply, got {:?}", other),
        }
    }
    assert_eq!(broker.queue_len(), 0);
    assert!(!broker.is_subscribed(&"b".to_string(), 3));
}
