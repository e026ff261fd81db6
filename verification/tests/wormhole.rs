use hermes_store::wormhole::count_attesting;
use hermes_store::wormhole::guardian_address;
use hermes_store::wormhole::parse_vaa;
use hermes_store::wormhole::quorum;
use hermes_store::wormhole::recover_signer;
use hermes_store::wormhole::verify_vaa;
use hermes_store::wormhole::Emitter;
use hermes_store::wormhole::GuardianSet;
use hermes_store::wormhole::Signature;
use hermes_store::wormhole::Vaa;
use hermes_store::wormhole::VerifyError;
use hermes_store::wormhole::ACCUMULATOR_EMITTER_ADDRESS;
use hermes_store::wormhole::PYTHNET_CHAIN;
use pythnet_sdk::hashers::keccak256::Keccak256;
use pythnet_sdk::hashers::Hasher;
use serde_wormhole::RawMessage;
use std::collections::BTreeMap;
use wormhole_sdk::vaa::Body;
use wormhole_sdk::Address;
use wormhole_sdk::Chain;

fn secret(i: u8) -> libsecp256k1::SecretKey {
    let mut bytes = [0u8; 32];
    bytes[31] = i;
    libsecp256k1::SecretKey::parse(&bytes).unwrap()
}

fn address(secret: &libsecp256k1::SecretKey) -> [u8; 20] {
    let key = libsecp256k1::PublicKey::from_secret_key(secret).serialize();
    let hash = Keccak256::hashv(&[&key[1..]]);
    let mut address = [0u8; 20];
    address.copy_from_slice(&hash[12..]);
    address
}

/// A set of `n` guardians with the secrets 1 to `n`.
fn guardians(n: u8) -> GuardianSet {
    GuardianSet { keys: (1..=n).map(|i| address(&secret(i))).collect() }
}

fn body(payload: &[u8]) -> Body<&RawMessage> {
    Body {
        timestamp: 7,
        nonce: 8,
        emitter_chain: Chain::Pythnet,
        emitter_address: Address(pythnet_sdk::ACCUMULATOR_EMITTER_ADDRESS),
        sequence: 9,
        consistency_level: 1,
        payload: <&RawMessage>::from(payload),
    }
}

fn digest(payload: &[u8]) -> [u8; 32] {
    body(payload).digest().unwrap().secp256k_hash
}

/// The signature of the guardian with the secret `i`, filed under `index`.
fn sign(digest: &[u8; 32], i: u8, index: u8) -> Signature {
    let (signature, recovery_id) = libsecp256k1::sign(&libsecp256k1::Message::parse(digest), &secret(i));
    let mut bytes = [0u8; 65];
    bytes[..64].copy_from_slice(&signature.serialize());
    bytes[64] = recovery_id.serialize();
    Signature { index, signature: bytes }
}

fn vaa(payload: &[u8], signatures: Vec<Signature>) -> Vaa {
    Vaa {
        version: 1,
        guardian_set_index: 4,
        signatures,
        timestamp: 7,
        nonce: 8,
        emitter_chain: PYTHNET_CHAIN,
        emitter_address: ACCUMULATOR_EMITTER_ADDRESS,
        sequence: 9,
        consistency_level: 1,
        payload: payload.to_vec(),
    }
}

fn emitter() -> Emitter {
    Emitter { chain: PYTHNET_CHAIN, address: ACCUMULATOR_EMITTER_ADDRESS }
}

fn sets(n: u8) -> BTreeMap<u32, GuardianSet> {
    [(4, guardians(n))].into_iter().collect()
}

#[test]
fn the_emitter_of_the_accumulator_is_the_one_of_the_sdk() {
    assert_eq!(ACCUMULATOR_EMITTER_ADDRESS, pythnet_sdk::ACCUMULATOR_EMITTER_ADDRESS);
    assert_eq!(PYTHNET_CHAIN, u16::from(Chain::Pythnet));
}

#[test]
fn the_quorum_is_two_thirds_rounded_up_and_one_more() {
    assert_eq!(quorum(0), 1);
    assert_eq!(quorum(1), 2);
    assert_eq!(quorum(2), 3);
    assert_eq!(quorum(3), 3);
    assert_eq!(quorum(4), 4);
    assert_eq!(quorum(6), 5);
    assert_eq!(quorum(19), 14);
    assert_eq!(quorum(100), 68);
    assert_eq!(quorum(usize::MAX), usize::MAX - usize::MAX / 3 + 1);
}

#[test]
fn parse_vaa_reads_every_field() {
    let d = digest(&[1, 2, 3]);
    let signatures = vec![sign(&d, 1, 0), sign(&d, 2, 1)];
    let wire = wormhole_sdk::Vaa {
        version: 1,
        guardian_set_index: 4,
        signatures: signatures
            .iter()
            .map(|s| wormhole_sdk::vaa::Signature { index: s.index, signature: s.signature })
            .collect(),
        timestamp: 7,
        nonce: 8,
        emitter_chain: Chain::Pythnet,
        emitter_address: Address(pythnet_sdk::ACCUMULATOR_EMITTER_ADDRESS),
        sequence: 9,
        consistency_level: 1,
        payload: <&RawMessage>::from(&[1u8, 2, 3][..]),
    };
    let bytes = serde_wormhole::to_vec(&wire).unwrap();
    assert_eq!(parse_vaa(&bytes), Some(vaa(&[1, 2, 3], signatures)));
    assert_eq!(parse_vaa(&vec![]), None);
    assert_eq!(parse_vaa(&bytes[..20].to_vec()), None);
}

#[test]
fn the_signer_of_a_signature_is_recovered() {
    let d = digest(&[1, 2, 3]);
    let signature = sign(&d, 2, 0);
    assert_eq!(recover_signer(&d, &signature.signature), Some(address(&secret(2))));
    // Another digest gives another signer, or none.
    assert_ne!(recover_signer(&digest(&[4]), &signature.signature), Some(address(&secret(2))));
    // A recovery id out of range gives none.
    let mut broken = signature.signature;
    broken[64] = 9;
    assert_eq!(recover_signer(&d, &broken), None);
    assert_eq!(recover_signer(&d, &[0; 65]), None);
}

#[test]
fn the_address_of_a_key_is_the_end_of_its_hash() {
    let key = libsecp256k1::PublicKey::from_secret_key(&secret(3)).serialize();
    assert_eq!(guardian_address(&key), address(&secret(3)));
}

#[test]
fn each_guardian_counts_once() {
    let d = digest(&[1, 2, 3]);
    let set = guardians(3);
    assert_eq!(count_attesting(&vec![], &d, &set), 0);
    assert_eq!(count_attesting(&vec![sign(&d, 1, 0), sign(&d, 2, 1), sign(&d, 3, 2)], &d, &set), 3);
    // The same guardian twice.
    assert_eq!(count_attesting(&vec![sign(&d, 1, 0), sign(&d, 1, 0), sign(&d, 2, 1)], &d, &set), 2);
    // A signature filed under the index of another guardian.
    assert_eq!(count_attesting(&vec![sign(&d, 1, 1), sign(&d, 3, 2)], &d, &set), 1);
    // An index beyond the set, and a signature on something else.
    assert_eq!(count_attesting(&vec![sign(&d, 1, 200), sign(&digest(&[9]), 2, 1)], &d, &set), 0);
    // An invalid signature beside a valid one of the same guardian.
    let mut broken = sign(&d, 1, 0);
    broken.signature[64] = 7;
    assert_eq!(count_attesting(&vec![broken, sign(&d, 1, 0)], &d, &set), 1);
}

#[test]
fn a_vaa_with_a_quorum_is_verified() {
    let d = digest(&[1, 2, 3]);
    let signed = vaa(&[1, 2, 3], vec![sign(&d, 1, 0), sign(&d, 2, 1), sign(&d, 3, 2)]);
    assert_eq!(verify_vaa(&emitter(), &sets(3), signed.clone()), Ok(signed.clone()));
    // Four guardians ask for four signatures.
    assert_eq!(verify_vaa(&emitter(), &sets(4), signed.clone()), Err(VerifyError::NoQuorum));
    let all = vaa(&[1, 2, 3], vec![sign(&d, 4, 3), sign(&d, 1, 0), sign(&d, 2, 1), sign(&d, 3, 2)]);
    assert_eq!(verify_vaa(&emitter(), &sets(4), all.clone()), Ok(all));
}

#[test]
fn a_vaa_without_a_quorum_is_turned_down() {
    let d = digest(&[1, 2, 3]);
    let two = vaa(&[1, 2, 3], vec![sign(&d, 1, 0), sign(&d, 2, 1)]);
    assert_eq!(verify_vaa(&emitter(), &sets(3), two), Err(VerifyError::NoQuorum));
    let doubled = vaa(&[1, 2, 3], vec![sign(&d, 1, 0), sign(&d, 2, 1), sign(&d, 2, 1)]);
    assert_eq!(verify_vaa(&emitter(), &sets(3), doubled), Err(VerifyError::NoQuorum));
    // The signatures are on another payload.
    let other = vaa(&[4, 5], vec![sign(&d, 1, 0), sign(&d, 2, 1), sign(&d, 3, 2)]);
    assert_eq!(verify_vaa(&emitter(), &sets(3), other), Err(VerifyError::NoQuorum));
    // A set of one or two guardians can never reach the quorum.
    let one = vaa(&[1, 2, 3], vec![sign(&d, 1, 0)]);
    assert_eq!(verify_vaa(&emitter(), &sets(1), one), Err(VerifyError::NoQuorum));
    let none = vaa(&[1, 2, 3], vec![]);
    assert_eq!(verify_vaa(&emitter(), &sets(0), none), Err(VerifyError::NoQuorum));
}

#[test]
fn a_vaa_of_another_emitter_or_an_unknown_set_is_turned_down() {
    let d = digest(&[1, 2, 3]);
    let signed = vaa(&[1, 2, 3], vec![sign(&d, 1, 0), sign(&d, 2, 1), sign(&d, 3, 2)]);
    let mut chain = signed.clone();
    chain.emitter_chain = 1;
    assert_eq!(verify_vaa(&emitter(), &sets(3), chain), Err(VerifyError::ForeignEmitter));
    let mut from = signed.clone();
    from.emitter_address[0] ^= 1;
    assert_eq!(verify_vaa(&emitter(), &sets(3), from), Err(VerifyError::ForeignEmitter));
    let mut set = signed.clone();
    set.guardian_set_index = 5;
    assert_eq!(verify_vaa(&emitter(), &sets(3), set), Err(VerifyError::UnknownGuardianSet));
    // Another emitter can be configured.
    let other = Emitter { chain: 1, address: ACCUMULATOR_EMITTER_ADDRESS };
    assert_eq!(verify_vaa(&other, &sets(3), signed), Err(VerifyError::ForeignEmitter));
}
