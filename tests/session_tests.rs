use rustdoc_ot::codec::encode;
use rustdoc_ot::ops::OpSeq;
use rustdoc_ot::session::{ClientMessage, Event, ServerMessage, Session, SessionError, Step};
use rustdoc_ot::store::{EditError, State};

fn insert_at(pos: u32, s: &str, base: u32) -> OpSeq {
    let mut o = OpSeq::new();
    o.retain(pos);
    o.insert(s);
    o.retain(base - pos);
    o
}

#[test]
fn identity_message_encoding() {
    assert_eq!(encode(&ServerMessage::Identity(0)), "{\"Identity\":0}");
    assert_eq!(encode(&ServerMessage::Identity(42)), "{\"Identity\":42}");
}

#[test]
fn history_message_encoding() {
    let mut s = State::new();
    s.submit_edit(7, 0, insert_at(0, "abc", 0)).unwrap();
    s.submit_edit(8, 1, insert_at(3, "d", 3)).unwrap();
    let msg = ServerMessage::History { start: 0, operations: s.history_since(0) };
    assert_eq!(
        encode(&msg),
        "{\"History\":{\"start\":0,\"operations\":[{\"id\":7,\"operation\":[\"abc\"]},{\"id\":8,\"operation\":[3,\"d\"]}]}}"
    );
    let empty = ServerMessage::History { start: 5, operations: Vec::new() };
    assert_eq!(encode(&empty), "{\"History\":{\"start\":5,\"operations\":[]}}");
}

#[test]
fn join_after_three_edits() {
    let mut s = State::new();
    s.submit_edit(0, 0, insert_at(0, "a", 0)).unwrap();
    s.submit_edit(0, 1, insert_at(1, "b", 1)).unwrap();
    s.submit_edit(0, 2, insert_at(2, "c", 2)).unwrap();
    let (session, messages) = Session::start(9, &s);
    assert_eq!(session.revision, 3);
    assert_eq!(messages.len(), 2);
    assert!(matches!(messages[0], ServerMessage::Identity(9)));
    match &messages[1] {
        ServerMessage::History { start, operations } => {
            assert_eq!(*start, 0);
            assert_eq!(operations.len(), 3);
        }
        _ => panic!("expected history"),
    }
}

#[test]
fn join_empty_document() {
    let s = State::new();
    let (session, messages) = Session::start(0, &s);
    assert_eq!(session.revision, 0);
    assert_eq!(messages.len(), 1);
    assert_eq!(encode(&messages[0]), "{\"Identity\":0}");
}

#[test]
fn catch_up_sends_missing_history() {
    let mut s = State::new();
    let (mut session, _) = Session::start(1, &s);
    assert!(session.catch_up(&s).is_none());
    s.submit_edit(2, 0, insert_at(0, "hi", 0)).unwrap();
    s.submit_edit(2, 1, insert_at(2, "!", 2)).unwrap();
    match session.catch_up(&s) {
        Some(ServerMessage::History { start, operations }) => {
            assert_eq!(start, 0);
            assert_eq!(operations.len(), 2);
        }
        _ => panic!("expected history"),
    }
    assert_eq!(session.revision, 2);
    assert!(session.catch_up(&s).is_none());
}

#[test]
fn edit_event_wakes_everyone() {
    let mut s = State::new();
    let (mut session, _) = Session::start(3, &s);
    let ev = Event::Message(ClientMessage::Edit { operation: insert_at(0, "x", 0), revision: 0 });
    assert_eq!(session.on_event(&mut s, ev), Step::Continue { notify: true });
    assert_eq!(s.text(), "x");
    assert_eq!(s.history_since(0)[0].id, 3);
}

#[test]
fn refused_edit_closes_connection() {
    let mut s = State::new();
    let (mut session, _) = Session::start(3, &s);
    let ev = Event::Message(ClientMessage::Edit { operation: insert_at(0, "x", 0), revision: 4 });
    assert_eq!(
        session.on_event(&mut s, ev),
        Step::Close { error: Some(SessionError::Edit(EditError::StaleFuture)) }
    );
    assert!(session.closed);
    assert_eq!(s.revision(), 0);
}

#[test]
fn other_events() {
    let mut s = State::new();
    let (mut session, _) = Session::start(3, &s);
    assert_eq!(session.on_event(&mut s, Event::Wake), Step::Continue { notify: false });
    assert_eq!(session.on_event(&mut s, Event::Ignored), Step::Continue { notify: false });
    assert_eq!(
        session.on_event(&mut s, Event::Malformed),
        Step::Close { error: Some(SessionError::ProtocolError) }
    );
    let (mut other, _) = Session::start(4, &s);
    assert_eq!(other.on_event(&mut s, Event::End), Step::Close { error: None });
}

#[test]
fn catch_up_with_cursor_past_revision() {
    let mut s = State::new();
    s.submit_edit(1, 0, insert_at(0, "a", 0)).unwrap();
    let mut session = Session { id: 5, revision: 4, closed: false };
    assert!(session.catch_up(&s).is_none());
    assert_eq!(session.revision, 4);
}
