use dialogue_engine::dispatch::handle_message;
use dialogue_engine::state::receive_user_name;
use dialogue_engine::state::start;
use dialogue_engine::state::DialogueState;
use dialogue_engine::state::InboundMessage;
use dialogue_engine::store::StateStore;

const PROMPT: &str = "Давай начнем! Скажи мне, как мне тебя называть?";
const REPROMPT: &str = "Пришли мне обычный текст!";

fn text_message(conversation_id: i64, text: &str) -> InboundMessage {
    InboundMessage { conversation_id, text: Some(String::from(text)) }
}

fn payloadless_message(conversation_id: i64) -> InboundMessage {
    InboundMessage { conversation_id, text: None }
}

#[test]
fn fresh_conversation_gets_prompt() {
    let mut store = StateStore::new();
    let reply = handle_message(&mut store, &text_message(1, "hello"));
    assert_eq!(reply.as_deref(), Some(PROMPT));
    assert!(matches!(store.get(1), DialogueState::AwaitingUserName));
}

#[test]
fn start_transition_same_for_any_message() {
    for msg in [text_message(1, "hi"), text_message(1, ""), payloadless_message(1)] {
        let (next, reply) = start(&msg);
        assert!(matches!(next, DialogueState::AwaitingUserName));
        assert_eq!(reply, PROMPT);
    }
}

#[test]
fn name_reply_greets_alex() {
    let (next, reply) = receive_user_name(&text_message(1, "Alex"));
    match next {
        DialogueState::ReceivedUserName { user_name } => assert_eq!(user_name, "Alex"),
        other => panic!("unexpected state {:?}", other),
    }
    assert_eq!(reply, "Приятно познакомиться, Alex!");
}

#[test]
fn missing_text_reprompts() {
    let (next, reply) = receive_user_name(&payloadless_message(1));
    assert!(matches!(next, DialogueState::AwaitingUserName));
    assert_eq!(reply, REPROMPT);
}

#[test]
fn empty_text_matches_missing_text() {
    let (next_empty, reply_empty) = receive_user_name(&text_message(1, ""));
    let (next_missing, reply_missing) = receive_user_name(&payloadless_message(1));
    assert!(matches!(next_empty, DialogueState::AwaitingUserName));
    assert!(matches!(next_missing, DialogueState::AwaitingUserName));
    assert_eq!(reply_empty, reply_missing);
}

#[test]
fn two_messages_complete_the_flow() {
    let mut store = StateStore::new();
    let first = handle_message(&mut store, &text_message(9, "hello"));
    assert_eq!(first.as_deref(), Some(PROMPT));
    let second = handle_message(&mut store, &text_message(9, "Alex"));
    assert_eq!(second.as_deref(), Some("Приятно познакомиться, Alex!"));
    match store.get(9) {
        DialogueState::ReceivedUserName { user_name } => assert_eq!(user_name, "Alex"),
        other => panic!("unexpected state {:?}", other),
    }
}

#[test]
fn terminal_state_drops_messages() {
    let mut store = StateStore::new();
    store
        .set(4, DialogueState::ReceivedUserName { user_name: String::from("Alex") })
        .unwrap();
    let reply = handle_message(&mut store, &text_message(4, "anything else"));
    assert!(reply.is_none());
    match store.get(4) {
        DialogueState::ReceivedUserName { user_name } => assert_eq!(user_name, "Alex"),
        other => panic!("unexpected state {:?}", other),
    }
}

#[test]
fn conversations_progress_independently() {
    let mut store = StateStore::new();
    handle_message(&mut store, &text_message(1, "hi"));
    handle_message(&mut store, &text_message(2, "hi"));
    handle_message(&mut store, &text_message(1, "Ada"));
    match store.get(1) {
        DialogueState::ReceivedUserName { user_name } => assert_eq!(user_name, "Ada"),
        other => panic!("unexpected state {:?}", other),
    }
    assert!(matches!(store.get(2), DialogueState::AwaitingUserName));
}
