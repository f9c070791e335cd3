use companion_memory::compress::CompressError;
use companion_memory::decimal::Decimal;
use companion_memory::store::SessionStore;
use companion_memory::time::Timestamp;
use companion_memory::types::{
    AssistantMessage, Emotion, LongTermMemory, MemoryQuant, UserMessage,
};

fn user(content: &str, secs: i64) -> MemoryQuant {
    MemoryQuant::User(UserMessage { content: content.to_string(), time: Timestamp { secs, nanos: 0 } })
}

fn assistant(content: &str, micros: i64, secs: i64) -> MemoryQuant {
    MemoryQuant::Assistant(AssistantMessage {
        content: content.to_string(),
        emotion: Emotion { emotion: "Joy".to_string(), level: Decimal { micros } },
        time: Timestamp { secs, nanos: 0 },
    })
}

fn memory(summary: &str) -> MemoryQuant {
    MemoryQuant::LongTermMemory(LongTermMemory {
        summary: summary.to_string(),
        emotion: Emotion { emotion: "Sense of existence".to_string(), level: Decimal::one() },
        time: Timestamp { secs: 0, nanos: 0 },
    })
}

fn show(transcript: &Vec<MemoryQuant>) -> String {
    format!("{:?}", transcript)
}

#[test]
fn a_session_without_a_saved_transcript_starts_from_the_seed() {
    let store = SessionStore::start(None, vec![memory("seed")]);
    assert_eq!(store.len(), 1);
    assert_eq!(store.baseline_len(), 1);
    assert_eq!(store.seed_len(), 1);
    assert_eq!(show(&store.snapshot_clone()), show(&vec![memory("seed")]));
}

#[test]
fn a_session_with_a_saved_transcript_starts_from_it() {
    let saved = vec![memory("old seed"), user("a", 1), assistant("b", 5, 2)];
    let store = SessionStore::start(Some(saved.clone()), vec![memory("seed")]);
    assert_eq!(store.len(), 3);
    assert_eq!(store.baseline_len(), 3);
    assert_eq!(store.seed_len(), 1);
    assert_eq!(show(&store.snapshot_clone()), show(&saved));
}

#[test]
fn append_adds_at_the_end() {
    let mut store = SessionStore::start(None, vec![memory("seed")]);
    store.append(user("a", 1));
    store.append(assistant("b", 5, 2));
    assert_eq!(store.len(), 3);
    assert_eq!(
        show(&store.snapshot_clone()),
        show(&vec![memory("seed"), user("a", 1), assistant("b", 5, 2)])
    );
    assert_eq!(store.baseline_len(), 1);
}

#[test]
fn a_snapshot_does_not_follow_the_store() {
    let mut store = SessionStore::start(None, vec![memory("seed")]);
    let mut snapshot = store.snapshot_clone();
    store.append(user("a", 1));
    assert_eq!(snapshot.len(), 1);
    snapshot.push(user("mine", 9));
    snapshot.push(user("mine too", 9));
    assert_eq!(store.len(), 2);
    assert_eq!(show(&store.snapshot_clone()), show(&vec![memory("seed"), user("a", 1)]));
}

#[test]
fn a_snapshot_beside_an_append_holds_a_whole_state() {
    let mut store = SessionStore::start(None, vec![memory("seed"), user("a", 1)]);
    let before = store.snapshot_clone();
    store.append(assistant("b", 5, 2));
    let after = store.snapshot_clone();
    assert_eq!(before.len(), 2);
    assert_eq!(after.len(), 3);
    assert_eq!(show(&after[..2].to_vec()), show(&before));
    assert_eq!(format!("{:?}", after[2]), format!("{:?}", assistant("b", 5, 2)));
}

#[test]
fn drain_from_removes_the_tail_and_counts_it() {
    let mut store = SessionStore::start(None, vec![memory("seed")]);
    store.append(user("a", 1));
    store.append(user("b", 2));
    store.append(user("c", 3));
    assert_eq!(store.drain_from(2), 2);
    assert_eq!(show(&store.snapshot_clone()), show(&vec![memory("seed"), user("a", 1)]));
    assert_eq!(store.drain_from(2), 0);
    assert_eq!(store.len(), 2);
    assert_eq!(store.drain_from(0), 2);
    assert_eq!(store.len(), 0);
}

#[test]
fn drain_from_beyond_the_end_does_nothing() {
    let mut store = SessionStore::start(None, vec![memory("seed")]);
    store.append(user("a", 1));
    assert_eq!(store.drain_from(3), 0);
    assert_eq!(store.drain_from(usize::MAX), 0);
    assert_eq!(show(&store.snapshot_clone()), show(&vec![memory("seed"), user("a", 1)]));
}

#[test]
fn replace_swaps_the_whole_transcript() {
    let mut store = SessionStore::start(None, vec![memory("seed")]);
    store.append(user("a", 1));
    store.replace(vec![user("x", 7)]);
    assert_eq!(show(&store.snapshot_clone()), show(&vec![user("x", 7)]));
    assert_eq!(store.baseline_len(), 1);
    assert_eq!(store.seed_len(), 1);
    store.replace(Vec::new());
    assert_eq!(store.len(), 0);
}

#[test]
fn clear_session_drops_what_the_session_added() {
    let saved = vec![memory("seed"), user("a", 1), assistant("b", 5, 2)];
    let mut store = SessionStore::start(Some(saved.clone()), vec![memory("seed")]);
    store.append(user("c", 3));
    store.append(assistant("d", 5, 4));
    assert_eq!(store.clear_session(), 2);
    assert_eq!(show(&store.snapshot_clone()), show(&saved));
    assert_eq!(store.clear_session(), 0);
}

#[test]
fn clear_all_drops_everything_behind_the_seed() {
    let saved = vec![memory("seed"), user("a", 1), assistant("b", 5, 2)];
    let mut store = SessionStore::start(Some(saved), vec![memory("seed")]);
    store.append(user("c", 3));
    assert_eq!(store.clear_all(), 3);
    assert_eq!(show(&store.snapshot_clone()), show(&vec![memory("seed")]));
}

#[test]
fn clearing_a_transcript_shorter_than_the_baseline_does_nothing() {
    let saved = vec![memory("seed"), user("a", 1), assistant("b", 900_000, 2)];
    let mut store = SessionStore::start(Some(saved), vec![memory("seed")]);
    assert!(store.compress(Decimal::one()).is_ok());
    assert_eq!(store.len(), 2);
    assert_eq!(store.baseline_len(), 3);
    assert_eq!(store.clear_session(), 0);
    assert_eq!(store.len(), 2);
}

#[test]
fn compress_replaces_the_transcript_and_hands_back_the_memories() {
    let mut store = SessionStore::start(None, vec![memory("seed")]);
    store.append(user("Hi", 1));
    store.append(assistant("Hello", 900_000, 2));
    store.append(user("Bye", 3));
    store.append(assistant("Goodbye", 200_000, 5));
    let memories = store.compress(Decimal { micros: 500_000 }).unwrap();
    assert_eq!(memories.len(), 1);
    assert_eq!(memories[0].summary, "seed");
    assert_eq!(
        show(&store.snapshot_clone()),
        show(&vec![user("Hi", 1), assistant("Hello", 900_000, 2)])
    );
}

#[test]
fn a_refused_compression_leaves_the_store_as_it_was() {
    let mut store = SessionStore::start(None, vec![memory("seed")]);
    store.append(user("Hi", 1));
    store.append(assistant("Hello", 900_000, 2));
    let before = show(&store.snapshot_clone());
    assert_eq!(store.compress(Decimal { micros: -100_000 }).unwrap_err(), CompressError::RetentionOutOfRange);
    assert_eq!(show(&store.snapshot_clone()), before);
    assert_eq!(store.compress(Decimal { micros: 1_100_000 }).unwrap_err(), CompressError::RetentionOutOfRange);
    assert_eq!(show(&store.snapshot_clone()), before);
    assert_eq!(store.len(), 3);
}
