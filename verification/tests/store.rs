use hermes_store::message::PriceFeedMessage;
use hermes_store::store::Store;
use hermes_store::store::UpdateStatus;
use hermes_store::types::AccumulatorMessages;
use hermes_store::types::IntegrityFault;
use hermes_store::types::PriceFeedUpdate;
use hermes_store::types::RequestTime;
use hermes_store::types::StoreError;
use hermes_store::types::Update;
use hermes_store::wormhole::Emitter;
use hermes_store::wormhole::GuardianSet;
use hermes_store::wormhole::VerifyError;
use pythnet_sdk::accumulators::merkle::MerkleRoot;
use pythnet_sdk::accumulators::merkle::MerkleTree;
use pythnet_sdk::accumulators::Accumulator;
use pythnet_sdk::hashers::keccak256::Keccak256;
use pythnet_sdk::hashers::keccak256_160::Keccak160;
use pythnet_sdk::hashers::Hasher;
use pythnet_sdk::messages::Message;
use pythnet_sdk::wire::v1::AccumulatorUpdateData;
use pythnet_sdk::wire::v1::Proof;
use pythnet_sdk::wire::v1::WormholeMerkleRoot;
use pythnet_sdk::wire::v1::WormholeMessage;
use pythnet_sdk::wire::v1::WormholePayload;
use serde_wormhole::RawMessage;
use wormhole_sdk::vaa::Body;
use wormhole_sdk::vaa::Signature;
use wormhole_sdk::Address;
use wormhole_sdk::Chain;
use wormhole_sdk::Vaa;

const SECOND: u64 = 1_000_000_000;

/// The secret keys of the three guardians of the tests.
fn guardian_secrets() -> Vec<libsecp256k1::SecretKey> {
    (1u8..=3)
        .map(|i| {
            let mut bytes = [0u8; 32];
            bytes[31] = i;
            libsecp256k1::SecretKey::parse(&bytes).unwrap()
        })
        .collect()
}

fn guardian_set() -> GuardianSet {
    GuardianSet {
        keys: guardian_secrets()
            .iter()
            .map(|secret| {
                let key = libsecp256k1::PublicKey::from_secret_key(secret).serialize();
                let hash = Keccak256::hashv(&[&key[1..]]);
                let mut address = [0u8; 20];
                address.copy_from_slice(&hash[12..]);
                address
            })
            .collect(),
    }
}

/// An attestation with the given payload, signed by the first `signers`
/// guardians.
fn signed_vaa(payload: &[u8], chain: Chain, sequence: u64, signers: usize) -> Vec<u8> {
    let body = Body {
        timestamp: 0,
        nonce: 0,
        emitter_chain: chain,
        emitter_address: Address(pythnet_sdk::ACCUMULATOR_EMITTER_ADDRESS),
        sequence,
        consistency_level: 0,
        payload: <&RawMessage>::from(payload),
    };
    let digest = libsecp256k1::Message::parse(&body.digest().unwrap().secp256k_hash);
    let signatures = guardian_secrets()
        .iter()
        .take(signers)
        .enumerate()
        .map(|(index, secret)| {
            let (signature, recovery_id) = libsecp256k1::sign(&digest, secret);
            let mut bytes = [0u8; 65];
            bytes[..64].copy_from_slice(&signature.serialize());
            bytes[64] = recovery_id.serialize();
            Signature { index: index as u8, signature: bytes }
        })
        .collect();
    let vaa = Vaa {
        version: 1,
        guardian_set_index: 0,
        signatures,
        timestamp: 0,
        nonce: 0,
        emitter_chain: chain,
        emitter_address: Address(pythnet_sdk::ACCUMULATOR_EMITTER_ADDRESS),
        sequence,
        consistency_level: 0,
        payload: <&RawMessage>::from(payload),
    };
    serde_wormhole::to_vec(&vaa).unwrap()
}

fn root_payload(slot: u64, root: [u8; 20]) -> Vec<u8> {
    let message = WormholeMessage::new(WormholePayload::Merkle(WormholeMerkleRoot {
        slot,
        ring_size: 100,
        root,
    }));
    pythnet_sdk::wire::to_vec::<_, byteorder::BE>(&message).unwrap()
}

/// Generate list of updates for the given list of messages at a given slot with given sequence
///
/// Sequence in Vaas is used to filter duplicate messages (as by wormhole design there is only
/// one message per sequence)
fn generate_update(messages: Vec<Message>, slot: u64, sequence: u64) -> Vec<Update> {
    let mut updates = Vec::new();

    // Accumulator messages
    let accumulator_messages = AccumulatorMessages {
        slot,
        raw_messages: messages
            .iter()
            .map(|message| pythnet_sdk::wire::to_vec::<_, byteorder::BE>(message).unwrap())
            .collect(),
        magic: [0; 4],
        ring_size: 100,
    };
    updates.push(Update::AccumulatorMessages(accumulator_messages.clone()));

    // Wormhole merkle update
    let merkle_tree = MerkleTree::<Keccak160>::from_set(
        accumulator_messages.raw_messages.iter().map(|m| m.as_ref()),
    )
    .unwrap();
    let payload = root_payload(slot, merkle_tree.root.as_bytes().try_into().unwrap());
    updates.push(Update::Vaa(signed_vaa(&payload, Chain::Pythnet, sequence, 3)));

    updates
}

/// Create a dummy price feed base on the given seed for all the fields except
/// `publish_time` and `prev_publish_time`. Those are set to the given value.
fn create_dummy_price_feed_message(
    seed: u8,
    publish_time: i64,
    prev_publish_time: i64,
) -> pythnet_sdk::messages::PriceFeedMessage {
    pythnet_sdk::messages::PriceFeedMessage {
        feed_id: [seed; 32],
        price: seed as _,
        conf: seed as _,
        exponent: 0,
        ema_conf: seed as _,
        ema_price: seed as _,
        publish_time,
        prev_publish_time,
    }
}

fn expected_price_feed(seed: u8, publish_time: i64, prev_publish_time: i64) -> PriceFeedMessage {
    PriceFeedMessage {
        feed_id: [seed; 32],
        price: seed as _,
        conf: seed as _,
        exponent: 0,
        publish_time,
        prev_publish_time,
        ema_price: seed as _,
        ema_conf: seed as _,
    }
}

fn setup_store(cache_size: u64) -> Store {
    let mut store = Store::new(cache_size);
    store.update_guardian_set(0, guardian_set());
    store
}

/// Stores the updates, all of which must succeed, and returns how many slots
/// they completed. Each completion is recorded at `now`, as the sender of the
/// notifications does.
fn store_multiple_valid_updates(
    store: &mut Store,
    updates: Vec<Update>,
    received_at: i64,
    now: u64,
) -> usize {
    let mut completed = 0;
    for update in updates {
        match store.store_update(update, received_at) {
            Ok(UpdateStatus::Completed) => {
                store.record_completion(now);
                completed += 1;
            }
            Ok(_) => {}
            Err(e) => panic!("update failed: {:?}", e),
        }
    }
    completed
}

#[test]
fn test_store_works() {
    let mut store = setup_store(10);

    let price_feed_message = create_dummy_price_feed_message(100, 10, 9);

    // Populate the store
    let completed = store_multiple_valid_updates(
        &mut store,
        generate_update(vec![Message::PriceFeedMessage(price_feed_message)], 10, 20),
        0,
        0,
    );

    // Check that exactly one notification is due
    assert_eq!(completed, 1);

    // Check the price ids are stored correctly
    assert_eq!(store.get_price_feed_ids(), vec![[100; 32]]);

    // Check get_price_feeds_with_update_data retrieves the correct
    // price feed with correct update data.
    let price_feeds_with_update_data = store
        .get_price_feeds_with_update_data(vec![[100; 32]], RequestTime::Latest)
        .unwrap();

    assert_eq!(
        price_feeds_with_update_data.price_feeds,
        vec![PriceFeedUpdate {
            price_feed: expected_price_feed(100, 10, 9),
            slot: 10,
            received_at: price_feeds_with_update_data.price_feeds[0].received_at, // Ignore checking this field.
            wormhole_merkle_update_data: price_feeds_with_update_data.price_feeds[0]
                .wormhole_merkle_update_data
                .clone(), // Ignore checking this field.
        }]
    );

    // Check the update data is correct.
    assert_eq!(price_feeds_with_update_data.wormhole_merkle_update_data.len(), 1);
    let update_data = price_feeds_with_update_data.wormhole_merkle_update_data.get(0).unwrap();
    let update_data = AccumulatorUpdateData::try_from_slice(update_data.as_ref()).unwrap();
    match update_data.proof {
        Proof::WormholeMerkle { vaa, updates } => {
            // Check the vaa and get the root
            let vaa: Vec<u8> = vaa.into();
            let vaa: Vaa<&RawMessage> = serde_wormhole::from_slice(vaa.as_ref()).unwrap();
            assert_eq!(
                vaa,
                Vaa {
                    nonce: 0,
                    version: 1,
                    sequence: 20,
                    timestamp: 0,
                    signatures: vaa.signatures.clone(), // Ignore checking this field.
                    guardian_set_index: 0,
                    emitter_chain: Chain::Pythnet,
                    emitter_address: Address(pythnet_sdk::ACCUMULATOR_EMITTER_ADDRESS),
                    consistency_level: 0,
                    payload: vaa.payload, // Ignore checking this field.
                }
            );
            let merkle_root = WormholeMessage::try_from_bytes(vaa.payload.as_ref()).unwrap();
            let WormholePayload::Merkle(merkle_root) = merkle_root.payload;
            assert_eq!(
                merkle_root,
                WormholeMerkleRoot {
                    slot: 10,
                    ring_size: 100,
                    root: merkle_root.root, // Ignore checking this field.
                }
            );

            // Check the updates
            assert_eq!(updates.len(), 1);
            let update = updates.get(0).unwrap();
            let message: Vec<u8> = update.message.clone().into();
            // Check the serialized message is the price feed message generated above.
            assert_eq!(
                pythnet_sdk::wire::from_slice::<byteorder::BE, Message>(message.as_ref()).unwrap(),
                Message::PriceFeedMessage(price_feed_message)
            );

            // Check the proof is correct with the Vaa root
            let merkle_root = MerkleRoot::<Keccak160>::new(merkle_root.root);
            assert!(merkle_root.check(update.proof.clone(), message.as_ref()));
        }
    }

    // The update data of the single feed is the same blob here: one slot, one message.
    assert_eq!(
        price_feeds_with_update_data.price_feeds[0].wormhole_merkle_update_data,
        price_feeds_with_update_data.wormhole_merkle_update_data[0]
    );
}

#[test]
fn test_metadata_times_and_readiness_work() {
    let mut store = setup_store(10);

    let price_feed_message = create_dummy_price_feed_message(100, 10, 9);

    // Advance the clocks
    let unix_timestamp: i64 = 1;
    let mut now: u64 = SECOND;

    // Nothing has been completed yet
    assert!(!store.is_ready(now));

    // Populate the store
    store_multiple_valid_updates(
        &mut store,
        generate_update(vec![Message::PriceFeedMessage(price_feed_message)], 10, 20),
        unix_timestamp,
        now,
    );

    // Advance the clock again
    now += SECOND;

    // Get the price feeds with update data
    let price_feeds_with_update_data = store
        .get_price_feeds_with_update_data(vec![[100; 32]], RequestTime::Latest)
        .unwrap();

    // check received_at is correct
    assert_eq!(price_feeds_with_update_data.price_feeds.len(), 1);
    assert_eq!(price_feeds_with_update_data.price_feeds[0].received_at, unix_timestamp);

    // Check the store is ready
    assert!(store.is_ready(now));

    // Advance the clock to make the prices stale
    now += 30 * SECOND;
    // Check the store is not ready
    assert!(!store.is_ready(now));
}

/// A shuffle that does the same on every run.
fn shuffle(updates: &mut Vec<Update>) {
    let mut state: u64 = 0x2545f4914f6cdd1d;
    for i in (1..updates.len()).rev() {
        state = state.wrapping_mul(6364136223846793005).wrapping_add(1442695040888963407);
        let j = ((state >> 33) as usize) % (i + 1);
        updates.swap(i, j);
    }
}

/// Test that the store retains the latest slots upon cache eviction.
///
/// Store is set up with cache size of 100 and 1000 slot updates will
/// be stored all at the same time with random order.
/// After the cache eviction, the store should retain the latest 100
/// slots regardless of the order.
#[test]
fn test_store_retains_latest_slots_upon_cache_eviction() {
    let mut store = setup_store(100);

    let mut updates: Vec<Update> = (0..1000)
        .flat_map(|slot| {
            let messages = vec![
                Message::PriceFeedMessage(create_dummy_price_feed_message(
                    100,
                    slot as i64,
                    slot as i64,
                )),
                Message::PriceFeedMessage(create_dummy_price_feed_message(
                    200,
                    slot as i64,
                    slot as i64,
                )),
            ];
            generate_update(messages, slot, slot)
        })
        .collect();

    // Shuffle the updates
    shuffle(&mut updates);

    // Store the updates
    store_multiple_valid_updates(&mut store, updates, 0, 0);

    // Check the last 100 slots are retained
    for slot in 900..1000 {
        let price_feeds_with_update_data = store
            .get_price_feeds_with_update_data(
                vec![[100; 32], [200; 32]],
                RequestTime::FirstAfter(slot as i64),
            )
            .unwrap();
        assert_eq!(price_feeds_with_update_data.price_feeds.len(), 2);
        assert_eq!(price_feeds_with_update_data.price_feeds[0].slot, slot);
        assert_eq!(price_feeds_with_update_data.price_feeds[1].slot, slot);
    }

    // Check nothing else is retained
    for slot in 0..900 {
        assert!(store
            .get_price_feeds_with_update_data(
                vec![[100; 32], [200; 32]],
                RequestTime::FirstAfter(slot as i64),
            )
            .is_err());
    }
}

#[test]
fn the_same_vaa_twice_completes_once() {
    let mut store = setup_store(10);
    let mut updates =
        generate_update(vec![Message::PriceFeedMessage(create_dummy_price_feed_message(100, 10, 9))], 10, 20);
    let vaa = updates.pop().unwrap();
    let messages = updates.pop().unwrap();
    assert_eq!(store.store_update(vaa.clone(), 0), Ok(UpdateStatus::Pending));
    assert_eq!(store.store_update(vaa.clone(), 0), Ok(UpdateStatus::AlreadyObserved));
    assert_eq!(store.store_update(messages, 0), Ok(UpdateStatus::Completed));
    assert_eq!(store.store_update(vaa, 0), Ok(UpdateStatus::AlreadyObserved));
}

#[test]
fn the_same_messages_twice_complete_once() {
    let mut store = setup_store(10);
    let mut updates =
        generate_update(vec![Message::PriceFeedMessage(create_dummy_price_feed_message(100, 10, 9))], 10, 20);
    let vaa = updates.pop().unwrap();
    let messages = updates.pop().unwrap();
    assert_eq!(store.store_update(messages.clone(), 0), Ok(UpdateStatus::Pending));
    assert_eq!(store.store_update(vaa, 0), Ok(UpdateStatus::Completed));
    assert_eq!(store.store_update(messages, 5), Ok(UpdateStatus::AlreadyCompleted));
    let found = store.get_price_feeds_with_update_data(vec![[100; 32]], RequestTime::Latest).unwrap();
    assert_eq!(found.price_feeds[0].received_at, 0);
}

#[test]
fn a_vaa_of_a_foreign_chain_is_ignored() {
    let mut store = setup_store(10);
    let messages = vec![pythnet_sdk::wire::to_vec::<_, byteorder::BE>(&Message::PriceFeedMessage(
        create_dummy_price_feed_message(100, 10, 9),
    ))
    .unwrap()];
    let tree = MerkleTree::<Keccak160>::from_set(messages.iter().map(|m| m.as_ref())).unwrap();
    let payload = root_payload(10, tree.root.as_bytes().try_into().unwrap());
    let vaa = signed_vaa(&payload, Chain::Solana, 20, 3);
    assert_eq!(store.store_update(Update::Vaa(vaa), 0), Ok(UpdateStatus::ForeignEmitter));
    // No state was created: the messages of the slot do not complete it.
    let batch = AccumulatorMessages { magic: [0; 4], slot: 10, ring_size: 100, raw_messages: messages };
    assert_eq!(store.store_update(Update::AccumulatorMessages(batch), 0), Ok(UpdateStatus::Pending));
    assert_eq!(store.get_price_feed_ids(), Vec::<[u8; 32]>::new());
}

#[test]
fn a_root_that_does_not_match_is_an_integrity_failure() {
    let mut store = setup_store(10);
    let messages = vec![pythnet_sdk::wire::to_vec::<_, byteorder::BE>(&Message::PriceFeedMessage(
        create_dummy_price_feed_message(100, 10, 9),
    ))
    .unwrap()];
    let vaa = signed_vaa(&root_payload(10, [7; 20]), Chain::Pythnet, 20, 3);
    let batch = AccumulatorMessages { magic: [0; 4], slot: 10, ring_size: 100, raw_messages: messages };
    assert_eq!(store.store_update(Update::Vaa(vaa), 0), Ok(UpdateStatus::Pending));
    assert_eq!(
        store.store_update(Update::AccumulatorMessages(batch), 0),
        Err(StoreError::Integrity(IntegrityFault::RootMismatch))
    );
    assert_eq!(store.get_price_feed_ids(), Vec::<[u8; 32]>::new());
    assert_eq!(
        store.get_price_feeds_with_update_data(vec![[100; 32]], RequestTime::Latest),
        Err(StoreError::NotFound)
    );
}

#[test]
fn a_message_that_does_not_decode_is_an_integrity_failure() {
    let mut store = setup_store(10);
    let messages = vec![vec![9u8, 9, 9]];
    let tree = MerkleTree::<Keccak160>::from_set(messages.iter().map(|m| m.as_ref())).unwrap();
    let vaa = signed_vaa(&root_payload(10, tree.root.as_bytes().try_into().unwrap()), Chain::Pythnet, 20, 3);
    let batch = AccumulatorMessages { magic: [0; 4], slot: 10, ring_size: 100, raw_messages: messages };
    assert_eq!(store.store_update(Update::AccumulatorMessages(batch), 0), Ok(UpdateStatus::Pending));
    assert_eq!(
        store.store_update(Update::Vaa(vaa), 0),
        Err(StoreError::Integrity(IntegrityFault::UndecodableMessage))
    );
}

#[test]
fn a_vaa_without_quorum_is_dropped() {
    let mut store = setup_store(10);
    let vaa = signed_vaa(&root_payload(10, [7; 20]), Chain::Pythnet, 20, 2);
    assert_eq!(
        store.store_update(Update::Vaa(vaa.clone()), 0),
        Ok(UpdateStatus::Unverifiable(VerifyError::NoQuorum))
    );
    // It was not remembered: it is judged again, not passed over as seen.
    assert_eq!(
        store.store_update(Update::Vaa(vaa), 0),
        Ok(UpdateStatus::Unverifiable(VerifyError::NoQuorum))
    );
}

#[test]
fn a_vaa_of_an_unknown_guardian_set_is_dropped() {
    let mut store = Store::new(10);
    let vaa = signed_vaa(&root_payload(10, [7; 20]), Chain::Pythnet, 20, 3);
    assert_eq!(
        store.store_update(Update::Vaa(vaa), 0),
        Ok(UpdateStatus::Unverifiable(VerifyError::UnknownGuardianSet))
    );
}

#[test]
fn bytes_that_are_no_vaa_are_an_error() {
    let mut store = setup_store(10);
    assert_eq!(store.store_update(Update::Vaa(vec![1, 2, 3]), 0), Err(StoreError::MalformedVaa));
}

#[test]
fn a_payload_without_a_root_is_an_error() {
    let mut store = setup_store(10);
    let vaa = signed_vaa(&[1, 2, 3], Chain::Pythnet, 20, 3);
    assert_eq!(store.store_update(Update::Vaa(vaa), 0), Err(StoreError::MalformedPayload));
}

#[test]
fn readiness_lasts_less_than_thirty_seconds() {
    let mut store = setup_store(10);
    assert!(!store.is_ready(0));
    store.record_completion(5 * SECOND);
    assert!(store.is_ready(5 * SECOND));
    assert!(store.is_ready(35 * SECOND - 1));
    assert!(!store.is_ready(35 * SECOND));
    // A clock that reads less than before counts as no time passed.
    assert!(store.is_ready(0));
    store.record_completion(40 * SECOND);
    assert!(store.is_ready(35 * SECOND));
    assert!(store.is_ready(69 * SECOND));
    assert!(!store.is_ready(70 * SECOND));
}

#[test]
fn the_thousand_and_first_sequence_evicts_the_smallest() {
    let mut store = setup_store(10);
    let payload = root_payload(1, [7; 20]);
    for sequence in 1..=1000 {
        assert_eq!(
            store.store_update(Update::Vaa(signed_vaa(&payload, Chain::Pythnet, sequence, 3)), 0),
            Ok(UpdateStatus::Pending)
        );
    }
    // All of them are remembered.
    for sequence in [1, 2, 500, 1000] {
        assert_eq!(
            store.store_update(Update::Vaa(signed_vaa(&payload, Chain::Pythnet, sequence, 3)), 0),
            Ok(UpdateStatus::AlreadyObserved)
        );
    }
    assert_eq!(
        store.store_update(Update::Vaa(signed_vaa(&payload, Chain::Pythnet, 1001, 3)), 0),
        Ok(UpdateStatus::Pending)
    );
    // The smallest one has been forgotten, and no other.
    assert_eq!(
        store.store_update(Update::Vaa(signed_vaa(&payload, Chain::Pythnet, 2, 3)), 0),
        Ok(UpdateStatus::AlreadyObserved)
    );
    assert_eq!(
        store.store_update(Update::Vaa(signed_vaa(&payload, Chain::Pythnet, 1, 3)), 0),
        Ok(UpdateStatus::Pending)
    );
    // Being the smallest, it is forgotten again at once.
    assert_eq!(
        store.store_update(Update::Vaa(signed_vaa(&payload, Chain::Pythnet, 1, 3)), 0),
        Ok(UpdateStatus::Pending)
    );
    assert_eq!(
        store.store_update(Update::Vaa(signed_vaa(&payload, Chain::Pythnet, 1001, 3)), 0),
        Ok(UpdateStatus::AlreadyObserved)
    );
}

#[test]
fn more_prices_of_one_slot_than_a_blob_holds_are_an_error() {
    let mut store = setup_store(10);
    let messages: Vec<Message> = (0..=255u8)
        .map(|seed| Message::PriceFeedMessage(create_dummy_price_feed_message(seed, 10, 9)))
        .collect();
    assert_eq!(store_multiple_valid_updates(&mut store, generate_update(messages, 10, 20), 0, 0), 1);
    let mut ids = store.get_price_feed_ids();
    ids.sort();
    assert_eq!(ids, (0..=255u8).map(|seed| [seed; 32]).collect::<Vec<_>>());
    assert_eq!(
        store.get_price_feeds_with_update_data(ids.clone(), RequestTime::Latest),
        Err(StoreError::UpdateData)
    );
    ids.pop();
    let found = store.get_price_feeds_with_update_data(ids, RequestTime::Latest).unwrap();
    assert_eq!(found.price_feeds.len(), 255);
    assert_eq!(found.wormhole_merkle_update_data.len(), 1);
    assert_eq!(found.price_feeds[7].price_feed, expected_price_feed(7, 10, 9));
}

#[test]
fn update_data_spans_the_slots_of_the_answers() {
    let mut store = setup_store(10);
    let first = vec![
        Message::PriceFeedMessage(create_dummy_price_feed_message(1, 10, 9)),
        Message::PriceFeedMessage(create_dummy_price_feed_message(2, 10, 9)),
    ];
    let second = vec![Message::PriceFeedMessage(create_dummy_price_feed_message(1, 20, 10))];
    store_multiple_valid_updates(&mut store, generate_update(second, 6, 2), 0, 0);
    store_multiple_valid_updates(&mut store, generate_update(first, 5, 1), 0, 0);
    let found = store
        .get_price_feeds_with_update_data(vec![[1; 32], [2; 32]], RequestTime::Latest)
        .unwrap();
    assert_eq!(found.price_feeds.iter().map(|f| f.slot).collect::<Vec<_>>(), vec![6, 5]);
    assert_eq!(found.wormhole_merkle_update_data.len(), 2);
    // The blobs come by ascending slot, and every proof in them holds under
    // the root of the attestation beside it.
    let mut slots = vec![];
    for blob in &found.wormhole_merkle_update_data {
        match AccumulatorUpdateData::try_from_slice(blob).unwrap().proof {
            Proof::WormholeMerkle { vaa, updates } => {
                let vaa: Vec<u8> = vaa.into();
                let vaa: Vaa<&RawMessage> = serde_wormhole::from_slice(vaa.as_ref()).unwrap();
                let WormholePayload::Merkle(root) =
                    WormholeMessage::try_from_bytes(vaa.payload.as_ref()).unwrap().payload;
                slots.push(root.slot);
                assert_eq!(updates.len(), 1);
                for update in updates {
                    let message: Vec<u8> = update.message.into();
                    assert!(MerkleRoot::<Keccak160>::new(root.root).check(update.proof, &message));
                }
            }
        }
    }
    assert_eq!(slots, vec![5, 6]);
    let earlier = store
        .get_price_feeds_with_update_data(vec![[1; 32]], RequestTime::FirstAfter(10))
        .unwrap();
    assert_eq!(earlier.price_feeds[0].slot, 5);
    assert_eq!(earlier.price_feeds[0].price_feed, expected_price_feed(1, 10, 9));
}

#[test]
fn a_store_takes_the_attestations_of_its_emitter() {
    let emitter = Emitter { chain: 1, address: pythnet_sdk::ACCUMULATOR_EMITTER_ADDRESS };
    let mut store = Store::with_emitter(10, emitter);
    store.update_guardian_set(0, guardian_set());
    let payload = root_payload(10, [7; 20]);
    assert_eq!(
        store.store_update(Update::Vaa(signed_vaa(&payload, Chain::Pythnet, 20, 3)), 0),
        Ok(UpdateStatus::ForeignEmitter)
    );
    assert_eq!(
        store.store_update(Update::Vaa(signed_vaa(&payload, Chain::Solana, 20, 3)), 0),
        Ok(UpdateStatus::Pending)
    );
}

#[test]
fn a_guardian_set_takes_the_place_of_the_one_with_its_index() {
    let mut store = Store::new(10);
    let payload = root_payload(10, [7; 20]);
    store.update_guardian_set(0, GuardianSet { keys: vec![[0; 20]; 3] });
    assert_eq!(
        store.store_update(Update::Vaa(signed_vaa(&payload, Chain::Pythnet, 20, 3)), 0),
        Ok(UpdateStatus::Unverifiable(VerifyError::NoQuorum))
    );
    store.update_guardian_set(1, guardian_set());
    assert_eq!(
        store.store_update(Update::Vaa(signed_vaa(&payload, Chain::Pythnet, 20, 3)), 0),
        Ok(UpdateStatus::Unverifiable(VerifyError::NoQuorum))
    );
    store.update_guardian_set(0, guardian_set());
    assert_eq!(
        store.store_update(Update::Vaa(signed_vaa(&payload, Chain::Pythnet, 20, 3)), 0),
        Ok(UpdateStatus::Pending)
    );
}
