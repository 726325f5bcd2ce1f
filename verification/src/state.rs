//! The dialogue state machine: state variants and pure transition logic.

use vstd::prelude::*;

verus! {

/// Mathematical model of where a conversation stands in the onboarding flow.
pub enum StateView {
    Start,
    AwaitingUserName,
    ReceivedUserName { user_name: Seq<char> },
}

/// The dialogue state kept for each conversation.
///
/// `Start` means no name has been collected yet, `AwaitingUserName` means the
/// user has been asked for a name, and `ReceivedUserName` holds the name
/// captured verbatim from the user's reply.
#[derive(Debug)]
pub enum DialogueState {
    Start,
    AwaitingUserName,
    ReceivedUserName { user_name: String },
}

impl View for DialogueState {
    type V = StateView;

    open spec fn view(&self) -> StateView {
        match self {
            DialogueState::Start => StateView::Start,
            DialogueState::AwaitingUserName => StateView::AwaitingUserName,
            DialogueState::ReceivedUserName { user_name } => StateView::ReceivedUserName {
                user_name: user_name@,
            },
        }
    }
}

impl Clone for DialogueState {
    fn clone(&self) -> (r: Self)
        ensures
            r == *self,
    {
        match self {
            DialogueState::Start => DialogueState::Start,
            DialogueState::AwaitingUserName => DialogueState::AwaitingUserName,
            DialogueState::ReceivedUserName { user_name } => DialogueState::ReceivedUserName {
                user_name: user_name.clone(),
            },
        }
    }
}

impl Default for DialogueState {
    /// A conversation with no stored record is in the `Start` state.
    fn default() -> (r: Self)
        ensures
            r@ == StateView::Start,
    {
        DialogueState::Start
    }
}

/// One inbound message: the conversation it belongs to and its text payload,
/// absent when the message carried no usable text.
pub struct InboundMessage {
    pub conversation_id: i64,
    pub text: Option<String>,
}

impl InboundMessage {
    pub open spec fn text_view(&self) -> Option<Seq<char>> {
        match self.text {
            Some(t) => Some(t@),
            None => None,
        }
    }
}

/// The fixed prompt sent when a conversation begins.
pub open spec fn prompt_text() -> Seq<char> {
    "Давай начнем! Скажи мне, как мне тебя называть?"@
}

pub open spec fn greeting_prefix() -> Seq<char> {
    "Приятно познакомиться, "@
}

pub open spec fn greeting_suffix() -> Seq<char> {
    "!"@
}

/// The greeting echoes the captured name between a fixed prefix and suffix.
pub open spec fn greeting_text(name: Seq<char>) -> Seq<char> {
    greeting_prefix() + name + greeting_suffix()
}

/// The fixed reminder sent when a usable name was expected but not received.
pub open spec fn reprompt_text() -> Seq<char> {
    "Пришли мне обычный текст!"@
}

/// The next state after one inbound message, as a total function over all
/// state variants. A missing text payload and an empty text payload are
/// treated identically; `ReceivedUserName` is terminal.
pub open spec fn next_state_spec(s: StateView, text: Option<Seq<char>>) -> StateView {
    match s {
        StateView::Start => StateView::AwaitingUserName,
        StateView::AwaitingUserName => match text {
            Some(t) => if t.len() > 0 {
                StateView::ReceivedUserName { user_name: t }
            } else {
                StateView::AwaitingUserName
            },
            None => StateView::AwaitingUserName,
        },
        StateView::ReceivedUserName { user_name } => StateView::ReceivedUserName { user_name },
    }
}

/// The reply owed for one inbound message; `None` for a terminal state, whose
/// messages are dropped without an answer.
pub open spec fn reply_spec(s: StateView, text: Option<Seq<char>>) -> Option<Seq<char>> {
    match s {
        StateView::Start => Some(prompt_text()),
        StateView::AwaitingUserName => match text {
            Some(t) => if t.len() > 0 {
                Some(greeting_text(t))
            } else {
                Some(reprompt_text())
            },
            None => Some(reprompt_text()),
        },
        StateView::ReceivedUserName { .. } => None,
    }
}

/// Handler for the `Start` state: every inbound message moves the
/// conversation to `AwaitingUserName` and is answered with the fixed prompt.
pub fn start(msg: &InboundMessage) -> (r: (DialogueState, String))
    ensures
        r.0@ == next_state_spec(StateView::Start, msg.text_view()),
        Some(r.1@) == reply_spec(StateView::Start, msg.text_view()),
{
    (
        DialogueState::AwaitingUserName,
        String::from_str("Давай начнем! Скажи мне, как мне тебя называть?"),
    )
}

/// Handler for the `AwaitingUserName` state: the first non-empty text is
/// captured verbatim as the name and greeted; a message with no text, or with
/// empty text, leaves the state unchanged and is answered with a reminder.
pub fn receive_user_name(msg: &InboundMessage) -> (r: (DialogueState, String))
    ensures
        r.0@ == next_state_spec(StateView::AwaitingUserName, msg.text_view()),
        Some(r.1@) == reply_spec(StateView::AwaitingUserName, msg.text_view()),
{
    match &msg.text {
        Some(t) => {
            if t.as_str().unicode_len() > 0 {
                let mut reply = String::from_str("Приятно познакомиться, ");
                reply.append(t.as_str());
                reply.append("!");
                (DialogueState::ReceivedUserName { user_name: t.clone() }, reply)
            } else {
                (DialogueState::AwaitingUserName, String::from_str("Пришли мне обычный текст!"))
            }
        },
        None => (DialogueState::AwaitingUserName, String::from_str("Пришли мне обычный текст!")),
    }
}

/// From `Start`, the transition is deterministic: whatever the inbound
/// message carries, the next state is `AwaitingUserName` and the reply is the
/// fixed prompt.
pub proof fn lemma_start_transition_deterministic(text: Option<Seq<char>>)
    ensures
        next_state_spec(StateView::Start, text) == StateView::AwaitingUserName,
        reply_spec(StateView::Start, text) == Some(prompt_text()),
{
}

/// A message whose text payload is the empty string behaves exactly like a
/// message with no text payload, in every state.
pub proof fn lemma_empty_text_equals_no_text(s: StateView)
    ensures
        next_state_spec(s, Some(Seq::<char>::empty())) == next_state_spec(s, None),
        reply_spec(s, Some(Seq::<char>::empty())) == reply_spec(s, None),
{
}

} // verus!
