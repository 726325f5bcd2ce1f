//! The dispatcher: routes one inbound message to the handler for the
//! conversation's current state, persists the transition, and yields the
//! reply owed.

use vstd::prelude::*;

use crate::state::next_state_spec;
use crate::state::receive_user_name;
use crate::state::reply_spec;
use crate::state::start;
use crate::state::DialogueState;
use crate::state::InboundMessage;
use crate::state::StateView;
use crate::store::spec_get;
use crate::store::StateStore;

verus! {

/// The store after one message is handled: the conversation's record holds
/// the next state computed from its current one. For a terminal state the
/// transition is the identity, so the store is unchanged.
pub open spec fn dispatch_state_spec(
    m: Map<i64, StateView>,
    id: i64,
    text: Option<Seq<char>>,
) -> Map<i64, StateView> {
    m.insert(id, next_state_spec(spec_get(m, id), text))
}

/// The reply sent for one message, `None` when it is dropped.
pub open spec fn dispatch_reply_spec(
    m: Map<i64, StateView>,
    id: i64,
    text: Option<Seq<char>>,
) -> Option<Seq<char>> {
    reply_spec(spec_get(m, id), text)
}

/// Handles one inbound message: loads the conversation's state, lets the
/// handler registered for that state compute the transition, persists the
/// next state, and returns the reply to send. A message for a conversation
/// in the terminal state is dropped: no reply, no state change, not even a
/// rewrite of the stored record.
pub fn handle_message(store: &mut StateStore, msg: &InboundMessage) -> (r: Option<String>)
    requires
        old(store).wf(),
    ensures
        final(store).wf(),
        final(store)@ == dispatch_state_spec(old(store)@, msg.conversation_id, msg.text_view()),
        match r {
            Some(reply) => dispatch_reply_spec(old(store)@, msg.conversation_id, msg.text_view())
                == Some(reply@),
            None => dispatch_reply_spec(old(store)@, msg.conversation_id, msg.text_view())
                is None,
        },
{
    let id = msg.conversation_id;
    let current = store.get(id);
    match current {
        DialogueState::Start => {
            let (next, reply) = start(msg);
            let _ = store.set(id, next);
            Some(reply)
        },
        DialogueState::AwaitingUserName => {
            let (next, reply) = receive_user_name(msg);
            let _ = store.set(id, next);
            Some(reply)
        },
        DialogueState::ReceivedUserName { .. } => {
            proof {
                let m = old(store)@;
                assert(m.contains_key(id));
                assert(next_state_spec(spec_get(m, id), msg.text_view()) == spec_get(m, id));
                assert(m.insert(id, spec_get(m, id)) =~= m);
            }
            None
        },
    }
}

/// No lost update: when two messages for the same conversation are handled
/// one after the other, the state finally persisted is the one reached by
/// applying the second transition after the first, never one overwriting the
/// other's outcome.
pub proof fn lemma_serialized_handling_composes(
    m: Map<i64, StateView>,
    id: i64,
    t1: Option<Seq<char>>,
    t2: Option<Seq<char>>,
)
    ensures
        spec_get(dispatch_state_spec(dispatch_state_spec(m, id, t1), id, t2), id)
            == next_state_spec(next_state_spec(spec_get(m, id), t1), t2),
{
}

} // verus!
