use dialogue_engine::codec::decode;
use dialogue_engine::codec::encode;
use dialogue_engine::state::DialogueState;
use dialogue_engine::store::StateStore;
use dialogue_engine::store::StoreError;

fn received(name: &str) -> DialogueState {
    DialogueState::ReceivedUserName { user_name: String::from(name) }
}

fn assert_state_eq(actual: &DialogueState, expected: &DialogueState) {
    match (actual, expected) {
        (DialogueState::Start, DialogueState::Start) => {}
        (DialogueState::AwaitingUserName, DialogueState::AwaitingUserName) => {}
        (
            DialogueState::ReceivedUserName { user_name: a },
            DialogueState::ReceivedUserName { user_name: b },
        ) => assert_eq!(a, b),
        (a, b) => panic!("states differ: {:?} vs {:?}", a, b),
    }
}

#[test]
fn get_returns_start_without_record() {
    let store = StateStore::new();
    assert!(matches!(store.get(42), DialogueState::Start));
    assert!(matches!(store.get(-1), DialogueState::Start));
}

#[test]
fn repeated_get_is_idempotent() {
    let mut store = StateStore::new();
    store.set(3, DialogueState::AwaitingUserName).unwrap();
    let first = store.get(3);
    let second = store.get(3);
    assert_state_eq(&first, &second);
    let missing_first = store.get(8);
    let missing_second = store.get(8);
    assert_state_eq(&missing_first, &missing_second);
}

#[test]
fn set_then_get_round_trips_every_variant() {
    let mut store = StateStore::new();
    for state in [DialogueState::Start, DialogueState::AwaitingUserName, received("Alex")] {
        store.set(5, state.clone()).unwrap();
        assert_state_eq(&store.get(5), &state);
    }
}

#[test]
fn overwrite_keeps_one_record_per_identity() {
    let mut store = StateStore::new();
    store.set(5, DialogueState::AwaitingUserName).unwrap();
    store.set(5, received("Ada")).unwrap();
    assert_state_eq(&store.get(5), &received("Ada"));
}

#[test]
fn remove_resets_to_default() {
    let mut store = StateStore::new();
    store.set(7, received("Ada")).unwrap();
    store.remove(7).unwrap();
    assert!(matches!(store.get(7), DialogueState::Start));
    // Removing an absent record is a harmless no-op.
    store.remove(7).unwrap();
    assert!(matches!(store.get(7), DialogueState::Start));
}

#[test]
fn reopened_store_holds_the_same_states() {
    let mut store = StateStore::new();
    store.set(1, DialogueState::Start).unwrap();
    store.set(2, DialogueState::AwaitingUserName).unwrap();
    store.set(3, received("Alex")).unwrap();
    store.set(-9, received("Алекс")).unwrap();
    let image = encode(&store);
    let reopened = decode(&image).expect("image produced by encode must decode");
    assert_state_eq(&reopened.get(1), &DialogueState::Start);
    assert_state_eq(&reopened.get(2), &DialogueState::AwaitingUserName);
    assert_state_eq(&reopened.get(3), &received("Alex"));
    assert_state_eq(&reopened.get(-9), &received("Алекс"));
    assert!(matches!(reopened.get(4), DialogueState::Start));
}

#[test]
fn empty_store_round_trips() {
    let store = StateStore::new();
    let image = encode(&store);
    let reopened = decode(&image).expect("image produced by encode must decode");
    assert!(matches!(reopened.get(0), DialogueState::Start));
}

#[test]
fn decode_rejects_empty_bytes() {
    assert!(matches!(decode(&Vec::new()), Err(StoreError::Corrupt)));
}

#[test]
fn decode_rejects_truncated_image() {
    let mut store = StateStore::new();
    store.set(1, received("Alex")).unwrap();
    let mut image = encode(&store);
    image.pop();
    assert!(matches!(decode(&image), Err(StoreError::Corrupt)));
}

#[test]
fn decode_rejects_unknown_version() {
    let mut store = StateStore::new();
    store.set(1, DialogueState::Start).unwrap();
    let mut image = encode(&store);
    image[0] = image[0].wrapping_add(1);
    assert!(matches!(decode(&image), Err(StoreError::Corrupt)));
}

#[test]
fn decode_rejects_unknown_state_tag() {
    let mut store = StateStore::new();
    store.set(1, DialogueState::Start).unwrap();
    let mut image = encode(&store);
    // The tag of the single record sits after the version byte, the record
    // count, and the conversation identity.
    image[17] = 9;
    assert!(matches!(decode(&image), Err(StoreError::Corrupt)));
}

#[test]
fn decode_rejects_name_that_is_not_utf8() {
    let mut store = StateStore::new();
    store.set(1, received("Alex")).unwrap();
    let mut image = encode(&store);
    // The four name bytes are the last four of the image; a lone
    // continuation byte is never valid UTF-8.
    let last = image.len() - 1;
    image[last] = 0xbf;
    image[last - 3] = 0xbf;
    assert!(matches!(decode(&image), Err(StoreError::Corrupt)));
}

#[test]
fn decode_rejects_trailing_bytes() {
    let mut store = StateStore::new();
    store.set(1, DialogueState::AwaitingUserName).unwrap();
    let mut image = encode(&store);
    image.push(0);
    assert!(matches!(decode(&image), Err(StoreError::Corrupt)));
}
