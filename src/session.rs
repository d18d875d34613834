use crate::codec::message_wf;
use crate::ops::OpSeq;
use crate::store::{edit_accepted, edit_effect, edit_error, EditError, State, UserOperation};
use vstd::prelude::*;

verus! {

/// A message from the server to one client.
pub enum ServerMessage {
    /// The connection's identity, sent once right after connecting.
    Identity(u64),
    /// History entries from index `start` on, that the client has not seen.
    History { start: usize, operations: Vec<UserOperation> },
}

/// A message from a client.
pub enum ClientMessage {
    /// An edit made against the first `revision` entries of the history.
    Edit { operation: OpSeq, revision: usize },
}

/// What happened on a connection since its last step.
pub enum Event {
    /// Some edit anywhere was accepted.
    Wake,
    /// A decoded client message arrived.
    Message(ClientMessage),
    /// A frame that is not text arrived.
    Ignored,
    /// A text frame that does not decode arrived.
    Malformed,
    /// The transport ended.
    End,
}

/// Why a connection was closed.
#[derive(Clone, Copy, Debug, PartialEq, Eq)]
pub enum SessionError {
    /// The client sent a payload that is not a valid message.
    ProtocolError,
    /// The client's edit was refused.
    Edit(EditError),
}

/// What the connection loop does after a step.
#[derive(Clone, Copy, Debug, PartialEq, Eq)]
pub enum Step {
    /// Keep going; when `notify`, wake every connection first.
    Continue { notify: bool },
    /// The connection is over, with the error that ended it if any.
    Close { error: Option<SessionError> },
}

/// The per-connection protocol state.
pub struct Session {
    pub id: u64,
    /// How many history entries this connection has delivered.
    pub revision: usize,
    pub closed: bool,
}

impl Session {
    /// Opens a connection: the identity message, then the whole history when there is any.
    pub fn start(id: u64, state: &State) -> (r: (Session, Vec<ServerMessage>))
        ensures
            r.0.id == id,
            r.0.revision == state.operations@.len(),
            !r.0.closed,
            state.operations@.len() == 0 ==> r.1@.len() == 1,
            state.operations@.len() > 0 ==> r.1@.len() == 2,
            r.1@[0] == ServerMessage::Identity(id),
            state.operations@.len() > 0 ==> (r.1@[1] matches ServerMessage::History {
                start,
                operations,
            } && start == 0 && operations@ == state.operations@),
            state.wf() ==> forall|i: int| 0 <= i < r.1@.len() ==> message_wf(#[trigger] r.1@[i]),
    {
        let mut messages: Vec<ServerMessage> = Vec::new();
        messages.push(ServerMessage::Identity(id));
        let revision = state.revision();
        if revision > 0 {
            let operations = state.history_since(0);
            proof {
                assert(state.operations@.skip(0) =~= state.operations@);
            }
            messages.push(ServerMessage::History { start: 0, operations });
        }
        proof {
            if state.wf() {
                assert forall|i: int| 0 <= i < messages@.len() implies message_wf(
                    #[trigger] messages@[i],
                ) by {
                    if i == 1 {
                        assert forall|k: int| 0 <= k < state.operations@.len() implies (
                        #[trigger] state.operations@[k]).operation.wf() by {}
                    }
                }
            }
        }
        (Session { id, revision, closed: false }, messages)
    }

    /// The history this connection has not delivered yet, if the store has moved past it;
    /// otherwise nothing, and the cursor stays.
    pub fn catch_up(&mut self, state: &State) -> (r: Option<ServerMessage>)
        ensures
            final(self).id == old(self).id,
            final(self).closed == old(self).closed,
            old(self).revision >= state.operations@.len() ==> r is None && final(self).revision
                == old(self).revision,
            old(self).revision < state.operations@.len() ==> final(self).revision
                == state.operations@.len(),
            state.wf() ==> (r matches Some(m) ==> message_wf(m)),
            old(self).revision < state.operations@.len() ==> (r matches Some(
                ServerMessage::History { start, operations },
            ) && start == old(self).revision && operations@ == state.operations@.skip(
                old(self).revision as int,
            )),
    {
        let len = state.revision();
        if len > self.revision {
            let start = self.revision;
            let operations = state.history_since(start);
            self.revision = len;
            Some(ServerMessage::History { start, operations })
        } else {
            None
        }
    }

    /// Handles one event: an edit goes to the store and, accepted, wakes every connection;
    /// a refused edit, a malformed frame or the end of the transport closes the connection.
    pub fn on_event(&mut self, state: &mut State, event: Event) -> (r: Step)
        requires
            old(state).wf(),
            !old(self).closed,
            event_wf(event),
        ensures
            final(state).wf(),
            final(self).id == old(self).id,
            final(self).revision == old(self).revision,
            final(self).closed == (r is Close),
            r == event_step(*old(state), event),
            event_effect(*old(state), *final(state), old(self).id, event),
    {
        let r = match event {
            Event::Wake => Step::Continue { notify: false },
            Event::Ignored => Step::Continue { notify: false },
            Event::Malformed => Step::Close { error: Some(SessionError::ProtocolError) },
            Event::End => Step::Close { error: None },
            Event::Message(ClientMessage::Edit { operation, revision }) => {
                match state.submit_edit(self.id, revision, operation) {
                    Ok(_) => Step::Continue { notify: true },
                    Err(e) => Step::Close { error: Some(SessionError::Edit(e)) },
                }
            },
        };
        self.closed = match r {
            Step::Close { .. } => true,
            Step::Continue { .. } => false,
        };
        r
    }
}

/// Every edit the event carries is well formed.
pub open spec fn event_wf(event: Event) -> bool {
    match event {
        Event::Message(ClientMessage::Edit { operation, revision }) => operation.wf(),
        _ => true,
    }
}

/// What `event` does to the store: an edit has its effect, anything else leaves it as it was.
pub open spec fn event_effect(before: State, after: State, id: u64, event: Event) -> bool {
    match event {
        Event::Message(ClientMessage::Edit { operation, revision }) => edit_effect(
            before,
            after,
            id,
            revision as nat,
            operation.ops(),
        ),
        _ => after == before,
    }
}

/// What the connection does after `event`, with the store in state `s`.
pub open spec fn event_step(s: State, event: Event) -> Step {
    match event {
        Event::Wake => Step::Continue { notify: false },
        Event::Ignored => Step::Continue { notify: false },
        Event::Malformed => Step::Close { error: Some(SessionError::ProtocolError) },
        Event::End => Step::Close { error: None },
        Event::Message(ClientMessage::Edit { operation, revision }) => {
            if edit_accepted(s, revision as nat, operation.ops()) {
                Step::Continue { notify: true }
            } else {
                Step::Close {
                    error: Some(SessionError::Edit(edit_error(s, revision as nat, operation.ops()))),
                }
            }
        },
    }
}

} // verus!
