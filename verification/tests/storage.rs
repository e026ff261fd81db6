use hermes_store::message::Message;
use hermes_store::message::MessageType;
use hermes_store::message::PriceFeedMessage;
use hermes_store::message::PublisherStakeCapsMessage;
use hermes_store::message::TwapMessage;
use hermes_store::message::STAKE_CAPS_FEED_ID;
use hermes_store::storage::MessageState;
use hermes_store::storage::MessageStateFilter;
use hermes_store::storage::MessageStateKey;
use hermes_store::storage::MessageStateTime;
use hermes_store::storage::ProofSet;
use hermes_store::storage::Storage;
use hermes_store::types::AccumulatorMessages;
use hermes_store::types::RequestTime;
use hermes_store::types::StoreError;
use hermes_store::wormhole_merkle::WormholeMerkleMessageProof;
use hermes_store::wormhole_merkle::WormholeMerkleRoot;
use hermes_store::wormhole_merkle::WormholeMerkleState;

fn price(seed: u8, publish_time: i64) -> Message {
    Message::PriceFeedMessage(PriceFeedMessage {
        feed_id: [seed; 32],
        price: seed as i64,
        conf: 0,
        exponent: 0,
        publish_time,
        prev_publish_time: publish_time,
        ema_price: 0,
        ema_conf: 0,
    })
}

fn twap(seed: u8, publish_time: i64) -> Message {
    Message::TwapMessage(TwapMessage {
        feed_id: [seed; 32],
        cumulative_price: 0,
        cumulative_conf: 0,
        num_down_slots: 0,
        exponent: 0,
        publish_time,
        prev_publish_time: publish_time,
        publish_slot: 0,
    })
}

/// A message state with a mark in its raw message, to tell it from others.
fn state(message: Message, slot: u64, mark: u8) -> MessageState {
    MessageState::new(
        message,
        vec![mark],
        ProofSet { wormhole_merkle_proof: WormholeMerkleMessageProof { vaa: vec![], proof: vec![] } },
        slot,
        0,
    )
}

fn batch(slot: u64, mark: u8) -> AccumulatorMessages {
    AccumulatorMessages { magic: [0; 4], slot, ring_size: 100, raw_messages: vec![vec![mark]] }
}

fn root(slot: u64, mark: u8) -> WormholeMerkleState {
    WormholeMerkleState { root: WormholeMerkleRoot { slot, ring_size: 100, root: [mark; 20] }, vaa: vec![mark] }
}

fn slots_found(storage: &Storage, seed: u8, request_time: RequestTime) -> Result<Vec<u64>, StoreError> {
    storage
        .fetch_message_states(vec![[seed; 32]], request_time, MessageStateFilter::Only(MessageType::PriceFeedMessage))
        .map(|states| states.iter().map(|s| s.slot).collect())
}

#[test]
fn the_key_and_time_of_a_state_come_from_its_message() {
    let s = state(twap(3, 77), 12, 0);
    assert_eq!(s.key(), MessageStateKey { feed_id: [3; 32], type_: MessageType::TwapMessage });
    assert_eq!(s.time(), MessageStateTime { publish_time: 77, slot: 12 });
    let caps = state(Message::PublisherStakeCapsMessage(PublisherStakeCapsMessage { publish_time: 5 }), 1, 0);
    assert_eq!(caps.key(), MessageStateKey { feed_id: STAKE_CAPS_FEED_ID, type_: MessageType::PublisherStakeCapsMessage });
    assert_eq!(caps.key().feed_id, [1u8; 32]);
    assert_eq!(caps.time().publish_time, 5);
}

#[test]
fn times_are_ordered_by_publication_and_then_by_slot() {
    let t = |publish_time, slot| MessageStateTime { publish_time, slot };
    assert!(t(1, 9).le(&t(2, 0)));
    assert!(!t(2, 0).le(&t(1, 9)));
    assert!(t(2, 3).le(&t(2, 3)));
    assert!(t(2, 3).le(&t(2, 4)));
    assert!(!t(2, 4).le(&t(2, 3)));
    assert!(t(-5, 4).le(&t(0, 0)));
}

#[test]
fn the_halves_of_a_slot_are_stored_and_replaced() {
    let mut storage = Storage::new(10);
    assert_eq!(storage.fetch_accumulator_messages(5), None);
    assert_eq!(storage.fetch_wormhole_merkle_state(5), None);
    storage.store_accumulator_messages(batch(5, 1));
    assert_eq!(storage.fetch_accumulator_messages(5), Some(&batch(5, 1)));
    assert_eq!(storage.fetch_wormhole_merkle_state(5), None);
    storage.store_wormhole_merkle_state(root(5, 1));
    assert_eq!(storage.fetch_wormhole_merkle_state(5), Some(&root(5, 1)));
    assert_eq!(storage.fetch_accumulator_messages(5), Some(&batch(5, 1)));
    storage.store_accumulator_messages(batch(5, 2));
    storage.store_wormhole_merkle_state(root(5, 3));
    assert_eq!(storage.fetch_accumulator_messages(5), Some(&batch(5, 2)));
    assert_eq!(storage.fetch_wormhole_merkle_state(5), Some(&root(5, 3)));
    assert_eq!(storage.fetch_accumulator_messages(6), None);
}

#[test]
fn the_cache_keeps_the_most_recent_slots() {
    let mut storage = Storage::new(2);
    storage.store_accumulator_messages(batch(7, 0));
    storage.store_wormhole_merkle_state(root(9, 0));
    storage.store_accumulator_messages(batch(8, 0));
    assert_eq!(storage.fetch_accumulator_messages(7), None);
    assert_eq!(storage.fetch_accumulator_messages(8), Some(&batch(8, 0)));
    assert_eq!(storage.fetch_wormhole_merkle_state(9), Some(&root(9, 0)));
    // A slot below the retained ones does not get in.
    storage.store_wormhole_merkle_state(root(1, 0));
    assert_eq!(storage.fetch_wormhole_merkle_state(1), None);
    assert_eq!(storage.fetch_accumulator_messages(8), Some(&batch(8, 0)));
}

#[test]
fn a_cache_of_no_slots_keeps_nothing() {
    let mut storage = Storage::new(0);
    storage.store_accumulator_messages(batch(7, 0));
    assert_eq!(storage.fetch_accumulator_messages(7), None);
    storage.store_message_states(vec![state(price(1, 10), 7, 0)]);
    assert_eq!(storage.message_state_keys(), vec![]);
}

#[test]
fn a_slot_is_marked_as_completed_once() {
    let mut storage = Storage::new(10);
    assert!(!storage.mark_completed(5));
    storage.store_accumulator_messages(batch(5, 1));
    assert!(storage.mark_completed(5));
    assert!(!storage.mark_completed(5));
    // The mark outlasts new halves and leaves them in place.
    storage.store_wormhole_merkle_state(root(5, 1));
    storage.store_accumulator_messages(batch(5, 2));
    assert!(!storage.mark_completed(5));
    assert_eq!(storage.fetch_accumulator_messages(5), Some(&batch(5, 2)));
    assert_eq!(storage.fetch_wormhole_merkle_state(5), Some(&root(5, 1)));
}

#[test]
fn latest_is_the_greatest_time_and_among_equals_the_greatest_slot() {
    let mut storage = Storage::new(10);
    storage.store_message_states(vec![
        state(price(1, 10), 3, 0),
        state(price(1, 30), 5, 0),
        state(price(1, 30), 4, 0),
        state(price(1, 20), 9, 0),
        state(price(2, 99), 1, 0),
        state(twap(1, 50), 8, 0),
    ]);
    assert_eq!(slots_found(&storage, 1, RequestTime::Latest), Ok(vec![5]));
    assert_eq!(slots_found(&storage, 2, RequestTime::Latest), Ok(vec![1]));
    assert_eq!(slots_found(&storage, 3, RequestTime::Latest), Err(StoreError::NotFound));
}

#[test]
fn first_after_is_the_smallest_time_at_or_after_and_among_equals_the_smallest_slot() {
    let mut storage = Storage::new(10);
    storage.store_message_states(vec![
        state(price(1, 10), 3, 0),
        state(price(1, 30), 5, 0),
        state(price(1, 30), 4, 0),
        state(price(1, 20), 9, 0),
    ]);
    assert_eq!(slots_found(&storage, 1, RequestTime::FirstAfter(10)), Ok(vec![3]));
    assert_eq!(slots_found(&storage, 1, RequestTime::FirstAfter(11)), Ok(vec![9]));
    assert_eq!(slots_found(&storage, 1, RequestTime::FirstAfter(20)), Ok(vec![9]));
    assert_eq!(slots_found(&storage, 1, RequestTime::FirstAfter(21)), Ok(vec![4]));
    assert_eq!(slots_found(&storage, 1, RequestTime::FirstAfter(30)), Ok(vec![4]));
    // All entries are older.
    assert_eq!(slots_found(&storage, 1, RequestTime::FirstAfter(31)), Err(StoreError::NotFound));
    // The history does not reach back: the first entry after may have been dropped.
    assert_eq!(slots_found(&storage, 1, RequestTime::FirstAfter(9)), Err(StoreError::NotFound));
    // The feed is unknown.
    assert_eq!(slots_found(&storage, 2, RequestTime::FirstAfter(10)), Err(StoreError::NotFound));
}

#[test]
fn a_query_answers_each_feed_in_the_order_of_the_request_or_fails_as_a_whole() {
    let mut storage = Storage::new(10);
    storage.store_message_states(vec![
        state(price(1, 10), 3, 0),
        state(price(2, 10), 4, 0),
        state(twap(1, 10), 5, 0),
    ]);
    let only = MessageStateFilter::Only(MessageType::PriceFeedMessage);
    let found = storage.fetch_message_states(vec![[2; 32], [1; 32], [2; 32]], RequestTime::Latest, only).unwrap();
    assert_eq!(found.iter().map(|s| s.slot).collect::<Vec<_>>(), vec![4, 3, 4]);
    assert_eq!(
        storage.fetch_message_states(vec![[1; 32], [9; 32]], RequestTime::Latest, only),
        Err(StoreError::NotFound)
    );
    let twaps = storage
        .fetch_message_states(vec![[1; 32]], RequestTime::Latest, MessageStateFilter::Only(MessageType::TwapMessage))
        .unwrap();
    assert_eq!(twaps.iter().map(|s| s.slot).collect::<Vec<_>>(), vec![5]);
    assert_eq!(storage.fetch_message_states(vec![], RequestTime::Latest, only), Ok(vec![]));
}

#[test]
fn a_query_for_all_kinds_asks_for_every_kind_of_each_feed() {
    let mut storage = Storage::new(10);
    storage.store_message_states(vec![
        state(price(1, 10), 3, 0),
        state(twap(1, 10), 5, 0),
    ]);
    // The feed has no stake caps, so the query for all kinds fails.
    assert_eq!(
        storage.fetch_message_states(vec![[1; 32]], RequestTime::Latest, MessageStateFilter::All),
        Err(StoreError::NotFound)
    );
    storage.store_message_states(vec![
        state(Message::PublisherStakeCapsMessage(PublisherStakeCapsMessage { publish_time: 1 }), 6, 0),
        state(twap(1, 11), 7, 0),
    ]);
    let found = storage
        .fetch_message_states(vec![STAKE_CAPS_FEED_ID], RequestTime::Latest, MessageStateFilter::All)
        .unwrap();
    assert_eq!(found.iter().map(|s| s.slot).collect::<Vec<_>>(), vec![3, 7, 6]);
}

#[test]
fn a_state_with_the_key_and_time_of_another_takes_its_place() {
    let mut storage = Storage::new(10);
    storage.store_message_states(vec![state(price(1, 10), 3, 1), state(price(1, 10), 3, 2)]);
    let only = MessageStateFilter::Only(MessageType::PriceFeedMessage);
    let found = storage.fetch_message_states(vec![[1; 32]], RequestTime::Latest, only).unwrap();
    assert_eq!(found[0].raw_message, vec![2]);
    storage.store_message_states(vec![state(price(1, 10), 3, 3)]);
    let found = storage.fetch_message_states(vec![[1; 32]], RequestTime::Latest, only).unwrap();
    assert_eq!(found[0].raw_message, vec![3]);
    assert_eq!(storage.message_state_keys().len(), 1);
}

#[test]
fn the_history_keeps_the_largest_slots_whatever_their_order() {
    let mut storage = Storage::new(2);
    storage.store_message_states(vec![state(price(1, 30), 30, 0), state(price(2, 30), 30, 0)]);
    storage.store_message_states(vec![state(price(1, 10), 10, 0)]);
    storage.store_message_states(vec![state(price(1, 20), 20, 0), state(price(2, 20), 20, 0)]);
    // Slot 10 has left, and with it the reach back to its time.
    assert_eq!(slots_found(&storage, 1, RequestTime::FirstAfter(10)), Err(StoreError::NotFound));
    assert_eq!(slots_found(&storage, 1, RequestTime::FirstAfter(20)), Ok(vec![20]));
    assert_eq!(slots_found(&storage, 2, RequestTime::FirstAfter(20)), Ok(vec![20]));
    assert_eq!(slots_found(&storage, 1, RequestTime::Latest), Ok(vec![30]));
    // A slot below the retained ones is dropped at once.
    storage.store_message_states(vec![state(price(3, 5), 5, 0)]);
    assert_eq!(slots_found(&storage, 3, RequestTime::Latest), Err(StoreError::NotFound));
    assert_eq!(slots_found(&storage, 1, RequestTime::FirstAfter(20)), Ok(vec![20]));
    // One batch may hold several slots: the policy counts slots, not states.
    storage.store_message_states(vec![state(price(1, 40), 40, 0), state(price(1, 50), 50, 0)]);
    assert_eq!(slots_found(&storage, 1, RequestTime::FirstAfter(30)), Err(StoreError::NotFound));
    assert_eq!(slots_found(&storage, 1, RequestTime::FirstAfter(40)), Ok(vec![40]));
    assert_eq!(slots_found(&storage, 2, RequestTime::Latest), Err(StoreError::NotFound));
}

#[test]
fn what_the_cache_holds_of_a_dropped_slot_is_freed() {
    let mut storage = Storage::new(2);
    storage.store_accumulator_messages(batch(10, 0));
    storage.store_message_states(vec![state(price(1, 10), 10, 0)]);
    storage.store_message_states(vec![state(price(1, 20), 20, 0)]);
    assert_eq!(storage.fetch_accumulator_messages(10), Some(&batch(10, 0)));
    storage.store_message_states(vec![state(price(1, 30), 30, 0)]);
    assert_eq!(storage.fetch_accumulator_messages(10), None);
}

#[test]
fn the_keys_of_the_history_are_listed_once_each() {
    let mut storage = Storage::new(10);
    assert_eq!(storage.message_state_keys(), vec![]);
    storage.store_message_states(vec![
        state(price(1, 10), 3, 0),
        state(price(1, 20), 4, 0),
        state(twap(1, 10), 3, 0),
        state(price(2, 10), 3, 0),
    ]);
    let mut keys = storage.message_state_keys();
    keys.sort_by_key(|k| (k.feed_id, k.type_ == MessageType::TwapMessage));
    assert_eq!(
        keys,
        vec![
            MessageStateKey { feed_id: [1; 32], type_: MessageType::PriceFeedMessage },
            MessageStateKey { feed_id: [1; 32], type_: MessageType::TwapMessage },
            MessageStateKey { feed_id: [2; 32], type_: MessageType::PriceFeedMessage },
        ]
    );
}
