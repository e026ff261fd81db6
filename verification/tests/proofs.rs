use hermes_store::message::decode_message;
use hermes_store::message::Message;
use hermes_store::message::PriceFeedMessage;
use hermes_store::types::AccumulatorMessages;
use hermes_store::types::IntegrityFault;
use hermes_store::types::StoreError;
use hermes_store::wormhole_merkle::construct_message_states_proofs;
use hermes_store::wormhole_merkle::verify_proof;
use hermes_store::wormhole_merkle::WormholeMerkleRoot;
use hermes_store::wormhole_merkle::WormholeMerkleState;
use pythnet_sdk::accumulators::merkle::MerkleTree;
use pythnet_sdk::accumulators::Accumulator;
use pythnet_sdk::hashers::keccak256_160::Keccak160;

fn price_feed(seed: u8, publish_time: i64) -> pythnet_sdk::messages::Message {
    pythnet_sdk::messages::Message::PriceFeedMessage(pythnet_sdk::messages::PriceFeedMessage {
        feed_id: [seed; 32],
        price: seed as i64,
        conf: seed as u64,
        exponent: 0,
        publish_time,
        prev_publish_time: publish_time,
        ema_price: seed as i64,
        ema_conf: seed as u64,
    })
}

fn raw(message: &pythnet_sdk::messages::Message) -> Vec<u8> {
    pythnet_sdk::wire::to_vec::<_, byteorder::BE>(message).unwrap()
}

fn root_of(messages: &[Vec<u8>]) -> [u8; 20] {
    let tree = MerkleTree::<Keccak160>::from_set(messages.iter().map(|m| m.as_ref())).unwrap();
    tree.root.as_bytes().try_into().unwrap()
}

#[test]
fn decode_message_reads_a_price_feed() {
    let bytes = raw(&price_feed(7, 42));
    assert_eq!(
        decode_message(&bytes),
        Some(Message::PriceFeedMessage(PriceFeedMessage {
            feed_id: [7; 32],
            price: 7,
            conf: 7,
            exponent: 0,
            publish_time: 42,
            prev_publish_time: 42,
            ema_price: 7,
            ema_conf: 7,
        }))
    );
    assert_eq!(decode_message(&vec![9, 9, 9]), None);
}

#[test]
fn proofs_verify_under_the_attested_root() {
    let messages = vec![raw(&price_feed(1, 10)), raw(&price_feed(2, 10)), raw(&price_feed(3, 10))];
    let root = root_of(&messages);
    let batch = AccumulatorMessages { magic: [0; 4], slot: 5, ring_size: 100, raw_messages: messages.clone() };
    let state = WormholeMerkleState {
        root: WormholeMerkleRoot { slot: 5, ring_size: 100, root },
        vaa: vec![1, 2, 3],
    };
    let proofs = construct_message_states_proofs(&batch, &state).unwrap();
    assert_eq!(proofs.len(), 3);
    for (proof, message) in proofs.iter().zip(messages.iter()) {
        assert_eq!(proof.vaa, vec![1, 2, 3]);
        assert!(verify_proof(&root, &proof.proof, message));
        assert!(!verify_proof(&[0; 20], &proof.proof, message));
    }
}

#[test]
fn a_wrong_root_is_an_integrity_fault() {
    let messages = vec![raw(&price_feed(1, 10))];
    let batch = AccumulatorMessages { magic: [0; 4], slot: 5, ring_size: 100, raw_messages: messages };
    let state = WormholeMerkleState {
        root: WormholeMerkleRoot { slot: 5, ring_size: 100, root: [0; 20] },
        vaa: vec![],
    };
    assert_eq!(
        construct_message_states_proofs(&batch, &state),
        Err(StoreError::Integrity(IntegrityFault::RootMismatch))
    );
}

#[test]
fn an_empty_batch_has_no_proofs() {
    let batch = AccumulatorMessages { magic: [0; 4], slot: 5, ring_size: 100, raw_messages: vec![] };
    let state = WormholeMerkleState {
        root: WormholeMerkleRoot { slot: 5, ring_size: 100, root: [0; 20] },
        vaa: vec![],
    };
    assert_eq!(construct_message_states_proofs(&batch, &state), Ok(vec![]));
}
