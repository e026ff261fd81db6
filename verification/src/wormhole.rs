//! Attestations and their verification against the trusted guardian sets.

use crate::types::bytes_equal;
use pythnet_sdk::hashers::Hasher;
use serde_wormhole::RawMessage;
use std::collections::BTreeMap;
use vstd::prelude::*;
use vstd::slice::slice_subrange;

verus! {

broadcast use vstd::std_specs::btree::group_btree_axioms, vstd::laws_cmp::group_laws_cmp;

/// The addresses of the guardians that may sign attestations, in their order.
#[derive(Clone, Debug, PartialEq, Eq)]
pub struct GuardianSet {
    pub keys: Vec<[u8; 20]>,
}

/// The signature of one guardian: 64 bytes of ECDSA signature and one byte of
/// recovery id, with the position of the guardian in its set.
#[derive(Clone, Copy, Debug, PartialEq, Eq)]
pub struct Signature {
    pub index: u8,
    pub signature: [u8; 65],
}

/// A parsed attestation.
#[derive(Clone, Debug, PartialEq, Eq)]
pub struct Vaa {
    pub version: u8,
    pub guardian_set_index: u32,
    pub signatures: Vec<Signature>,
    pub timestamp: u32,
    pub nonce: u32,
    pub emitter_chain: u16,
    pub emitter_address: [u8; 32],
    pub sequence: u64,
    pub consistency_level: u8,
    pub payload: Vec<u8>,
}

/// The program whose attestations the store accepts.
#[derive(Clone, Copy, Debug, PartialEq, Eq)]
pub struct Emitter {
    pub chain: u16,
    pub address: [u8; 32],
}

/// Why an attestation was turned down.
#[derive(Clone, Copy, Debug, PartialEq, Eq)]
pub enum VerifyError {
    /// It comes from another emitter than the configured one.
    ForeignEmitter,
    /// It names a guardian set that is not known.
    UnknownGuardianSet,
    /// Its body has no digest.
    NoDigest,
    /// Too few guardians of its set have signed it.
    NoQuorum,
}

/// The chain id of Pythnet.
pub const PYTHNET_CHAIN: u16 = 26;

/// The address from which the accumulator emits its attestations.
pub const ACCUMULATOR_EMITTER_ADDRESS: [u8; 32] = [
    225, 1, 250, 237, 172, 88, 81, 227, 43, 155, 35, 181, 249, 65, 26, 140, 43, 172, 74, 174, 62,
    212, 221, 123, 129, 29, 209, 167, 46, 164, 170, 113,
];

/// What the attestation format makes of `bytes`: the attestation they encode,
/// or `None` where they encode none.
pub uninterp spec fn spec_parse_vaa(bytes: Seq<u8>) -> Option<Vaa>;

/// The hash that the guardians sign for a body with these fields, or `None`
/// where the body cannot be serialised.
pub uninterp spec fn spec_body_digest(
    timestamp: u32,
    nonce: u32,
    emitter_chain: u16,
    emitter_address: Seq<u8>,
    sequence: u64,
    consistency_level: u8,
    payload: Seq<u8>,
) -> Option<[u8; 32]>;

/// The uncompressed public key that signed `digest` with `signature`, or `None`
/// where the signature is none of any key.
pub uninterp spec fn spec_ecdsa_recover(digest: Seq<u8>, signature: Seq<u8>) -> Option<[u8; 65]>;

/// The Keccak-256 hash of `data`.
pub uninterp spec fn spec_keccak256(data: Seq<u8>) -> [u8; 32];

/// `serde_wormhole::from_slice` for a `wormhole_sdk::Vaa` with a raw payload:
/// the attestation that the bytes encode, its fields taken over one for one
/// (the chain as its number), or `None` where parsing fails or bytes are left
/// over.
#[verifier::external_body]
pub(crate) fn wormhole_parse_vaa(bytes: &[u8]) -> (vaa: Option<Vaa>)
    ensures
        vaa == spec_parse_vaa(bytes@),
{
    let v = serde_wormhole::from_slice::<wormhole_sdk::Vaa<&RawMessage>>(bytes).ok()?;
    let sign = |s: &wormhole_sdk::vaa::Signature| Signature { index: s.index, signature: s.signature };
    Some(Vaa {
        version: v.version,
        guardian_set_index: v.guardian_set_index,
        signatures: v.signatures.iter().map(sign).collect(),
        timestamp: v.timestamp,
        nonce: v.nonce,
        emitter_chain: u16::from(v.emitter_chain),
        emitter_address: v.emitter_address.0,
        sequence: v.sequence,
        consistency_level: v.consistency_level,
        payload: v.payload.to_vec(),
    })
}

/// `wormhole_sdk::vaa::Body::digest`, of which the hash for secp256k1 is
/// taken: the Keccak-256 hash of the Keccak-256 hash of the serialised body.
#[verifier::external_body]
pub(crate) fn wormhole_body_digest(vaa: &Vaa) -> (digest: Option<[u8; 32]>)
    ensures
        digest == spec_body_digest(
            vaa.timestamp,
            vaa.nonce,
            vaa.emitter_chain,
            vaa.emitter_address@,
            vaa.sequence,
            vaa.consistency_level,
            vaa.payload@,
        ),
{
    let body = wormhole_sdk::vaa::Body {
        timestamp: vaa.timestamp,
        nonce: vaa.nonce,
        emitter_chain: wormhole_sdk::Chain::from(vaa.emitter_chain),
        emitter_address: wormhole_sdk::Address(vaa.emitter_address),
        sequence: vaa.sequence,
        consistency_level: vaa.consistency_level,
        payload: <&RawMessage>::from(vaa.payload.as_slice()),
    };
    Some(body.digest().ok()?.secp256k_hash)
}

/// `libsecp256k1::recover`: the public key, in its uncompressed form of 65
/// bytes, whose secret key made the first 64 bytes of `signature` for
/// `digest`, the last byte being the recovery id. `None` where the signature
/// or the recovery id is out of range, or no key is recovered.
#[verifier::external_body]
pub(crate) fn secp256k1_recover(digest: &[u8; 32], signature: &[u8; 65]) -> (key: Option<[u8; 65]>)
    ensures
        key == spec_ecdsa_recover(digest@, signature@),
{
    let message = libsecp256k1::Message::parse(digest);
    let compact = libsecp256k1::Signature::parse_standard_slice(&signature[..64]).ok()?;
    let recovery_id = libsecp256k1::RecoveryId::parse(signature[64]).ok()?;
    Some(libsecp256k1::recover(&message, &compact, &recovery_id).ok()?.serialize())
}

/// `pythnet_sdk::hashers::keccak256::Keccak256::hashv` on one slice: the
/// Keccak-256 hash of the bytes.
#[verifier::external_body]
pub(crate) fn keccak256(data: &[u8]) -> (hash: [u8; 32])
    ensures
        hash == spec_keccak256(data@),
{
    pythnet_sdk::hashers::keccak256::Keccak256::hashv(&[data])
}

impl Vaa {
    /// The hash that the guardians sign: it covers the body, and neither the
    /// signatures nor the guardian set.
    pub open spec fn digest(&self) -> Option<[u8; 32]> {
        spec_body_digest(
            self.timestamp,
            self.nonce,
            self.emitter_chain,
            self.emitter_address@,
            self.sequence,
            self.consistency_level,
            self.payload@,
        )
    }

    /// Whether the attestation comes from `emitter`.
    pub open spec fn is_from(&self, emitter: Emitter) -> bool {
        self.emitter_chain == emitter.chain && self.emitter_address == emitter.address
    }
}

/// The address of the guardian with the public key `key`: the last 20 bytes of
/// the Keccak-256 hash of the key without its leading tag byte.
pub open spec fn spec_guardian_address(key: [u8; 65]) -> Seq<u8> {
    spec_keccak256(key@.subrange(1, 65))@.subrange(12, 32)
}

/// The address of the guardian that signed `digest` with `signature`.
pub open spec fn spec_signer(digest: [u8; 32], signature: [u8; 65]) -> Option<Seq<u8>> {
    match spec_ecdsa_recover(digest@, signature@) {
        Some(key) => Some(spec_guardian_address(key)),
        None => None,
    }
}

/// Whether signature `j` of `signatures` is the valid signature of guardian `i`
/// of `keys` on `digest`.
pub open spec fn signs(
    signatures: Seq<Signature>,
    digest: [u8; 32],
    keys: Seq<[u8; 20]>,
    i: int,
    j: int,
) -> bool {
    &&& 0 <= i < keys.len()
    &&& 0 <= j < signatures.len()
    &&& signatures[j].index == i
    &&& spec_signer(digest, signatures[j].signature) == Some(keys[i]@)
}

/// Whether guardian `i` of `keys` has a valid signature on `digest` among
/// `signatures`.
pub open spec fn attests(
    signatures: Seq<Signature>,
    digest: [u8; 32],
    keys: Seq<[u8; 20]>,
    i: int,
) -> bool {
    exists|j: int| signs(signatures, digest, keys, i, j)
}

/// The number of guardians among the first `n` of `keys` that have a valid
/// signature on `digest` among `signatures`. A guardian counts once, however
/// many signatures bear its index.
pub open spec fn attesting(
    signatures: Seq<Signature>,
    digest: [u8; 32],
    keys: Seq<[u8; 20]>,
    n: nat,
) -> nat
    decreases n,
{
    if n == 0 {
        0
    } else {
        attesting(signatures, digest, keys, (n - 1) as nat) + if attests(
            signatures,
            digest,
            keys,
            n - 1,
        ) {
            1nat
        } else {
            0nat
        }
    }
}

/// The number of guardians of a set of `n` that must sign: two thirds of
/// them, rounded up, and one more.
pub open spec fn spec_quorum(n: nat) -> nat {
    (2 * n + 2) / 3 + 1
}

/// Whether `vaa` bears valid signatures of a quorum of the guardian set that
/// it names.
pub open spec fn has_quorum(guardian_sets: Map<u32, GuardianSet>, vaa: Vaa) -> bool {
    &&& guardian_sets.contains_key(vaa.guardian_set_index)
    &&& vaa.digest() matches Some(digest)
    &&& attesting(
        vaa.signatures@,
        digest,
        guardian_sets[vaa.guardian_set_index].keys@,
        guardian_sets[vaa.guardian_set_index].keys@.len(),
    ) >= spec_quorum(guardian_sets[vaa.guardian_set_index].keys@.len())
}

/// The verdict on `vaa`: the first check that it fails, or `None` where it
/// passes them all.
pub open spec fn spec_verdict(
    emitter: Emitter,
    guardian_sets: Map<u32, GuardianSet>,
    vaa: Vaa,
) -> Option<VerifyError> {
    if !vaa.is_from(emitter) {
        Some(VerifyError::ForeignEmitter)
    } else if !guardian_sets.contains_key(vaa.guardian_set_index) {
        Some(VerifyError::UnknownGuardianSet)
    } else if vaa.digest() is None {
        Some(VerifyError::NoDigest)
    } else if !has_quorum(guardian_sets, vaa) {
        Some(VerifyError::NoQuorum)
    } else {
        None
    }
}

/// Parses the bytes of an attestation, without verifying anything.
pub fn parse_vaa(bytes: &Vec<u8>) -> (vaa: Option<Vaa>)
    ensures
        vaa == spec_parse_vaa(bytes@),
{
    wormhole_parse_vaa(bytes.as_slice())
}

/// The number of signatures that a guardian set of `n` asks for.
pub fn quorum(n: usize) -> (q: usize)
    ensures
        q == spec_quorum(n as nat),
{
    n - n / 3 + 1
}

/// The address that belongs to a public key.
pub fn guardian_address(key: &[u8; 65]) -> (address: [u8; 20])
    ensures
        address@ == spec_guardian_address(*key),
{
    let hash = keccak256(slice_subrange(key.as_slice(), 1, 65));
    let mut address: [u8; 20] = [0, 0, 0, 0, 0, 0, 0, 0, 0, 0, 0, 0, 0, 0, 0, 0, 0, 0, 0, 0];
    let mut i: usize = 0;
    while i < 20
        invariant
            i <= 20,
            forall|j: int| 0 <= j < i ==> address[j] == hash[12 + j],
        decreases 20 - i,
    {
        address[i] = hash[12 + i];
        i += 1;
    }
    assert(address@ =~= hash@.subrange(12, 32));
    address
}

/// The address of the guardian that signed `digest` with `signature`, or `None`
/// where the signature is no one's.
pub fn recover_signer(digest: &[u8; 32], signature: &[u8; 65]) -> (signer: Option<[u8; 20]>)
    ensures
        match signer {
            Some(address) => spec_signer(*digest, *signature) == Some(address@),
            None => spec_signer(*digest, *signature) is None,
        },
{
    match secp256k1_recover(digest, signature) {
        Some(key) => Some(guardian_address(&key)),
        None => None,
    }
}

/// Counts the guardians of `set` that have a valid signature on `digest` among
/// `signatures`.
pub fn count_attesting(signatures: &Vec<Signature>, digest: &[u8; 32], set: &GuardianSet) -> (count:
    usize)
    ensures
        count == attesting(signatures@, *digest, set.keys@, set.keys@.len()),
{
    let n = set.keys.len();
    let mut attested: Vec<bool> = Vec::with_capacity(n);
    let mut i: usize = 0;
    while i < n
        invariant
            i <= n,
            attested@.len() == i,
            forall|k: int| 0 <= k < i ==> !attested@[k],
        decreases n - i,
    {
        attested.push(false);
        i += 1;
    }
    let mut j: usize = 0;
    while j < signatures.len()
        invariant
            j <= signatures.len(),
            n == set.keys@.len(),
            attested@.len() == n,
            forall|k: int|
                0 <= k < n ==> (attested@[k] <==> exists|l: int|
                    l < j && signs(signatures@, *digest, set.keys@, k, l)),
        decreases signatures.len() - j,
    {
        let index = signatures[j].index as usize;
        let ghost before = attested@;
        let mut valid = false;
        if index < n {
            match recover_signer(digest, &signatures[j].signature) {
                Some(address) => {
                    valid = bytes_equal(&address, &set.keys[index]);
                    assert(valid <==> address@ == set.keys@[index as int]@) by {
                        if address@ == set.keys@[index as int]@ {
                            assert(address =~= set.keys@[index as int]);
                        }
                    }
                },
                None => {},
            }
        }
        assert(valid <==> signs(signatures@, *digest, set.keys@, index as int, j as int));
        if valid {
            attested.set(index, true);
        }
        assert forall|k: int| 0 <= k < n implies (attested@[k] <==> exists|l: int|
            l < j + 1 && signs(signatures@, *digest, set.keys@, k, l)) by {
            if attested@[k] {
                if before[k] {
                    let l = choose|l: int| l < j && signs(signatures@, *digest, set.keys@, k, l);
                    assert(l < j + 1 && signs(signatures@, *digest, set.keys@, k, l));
                } else {
                    assert(signs(signatures@, *digest, set.keys@, k, j as int));
                }
            } else if exists|l: int| l < j + 1 && signs(signatures@, *digest, set.keys@, k, l) {
                let l = choose|l: int| l < j + 1 && signs(signatures@, *digest, set.keys@, k, l);
                if l < j {
                    assert(before[k]);
                } else {
                    assert(k == index);
                }
            }
        }
        j += 1;
    }
    assert forall|k: int| 0 <= k < n implies (attested@[k] <==> attests(
        signatures@,
        *digest,
        set.keys@,
        k,
    )) by {
        if attested@[k] {
            let l = choose|l: int| l < j && signs(signatures@, *digest, set.keys@, k, l);
            assert(signs(signatures@, *digest, set.keys@, k, l));
        }
        if attests(signatures@, *digest, set.keys@, k) {
            let l = choose|l: int| signs(signatures@, *digest, set.keys@, k, l);
            assert(l < j && signs(signatures@, *digest, set.keys@, k, l));
        }
    }
    let mut count: usize = 0;
    let mut k: usize = 0;
    while k < n
        invariant
            k <= n,
            n == set.keys@.len(),
            attested@.len() == n,
            count <= k,
            count == attesting(signatures@, *digest, set.keys@, k as nat),
            forall|i: int|
                0 <= i < n ==> (attested@[i] <==> attests(signatures@, *digest, set.keys@, i)),
        decreases n - k,
    {
        if attested[k] {
            count += 1;
        }
        k += 1;
    }
    count
}

/// Verifies an attestation: that it comes from `emitter`, names a known
/// guardian set, and bears valid signatures of a quorum of that set. Returns the
/// attestation as it was given, or the first check that failed.
pub fn verify_vaa(emitter: &Emitter, guardian_sets: &BTreeMap<u32, GuardianSet>, vaa: Vaa) -> (verified:
    Result<Vaa, VerifyError>)
    ensures
        match verified {
            Ok(v) => v == vaa && spec_verdict(*emitter, guardian_sets@, vaa) is None,
            Err(e) => spec_verdict(*emitter, guardian_sets@, vaa) == Some(e),
        },
{
    if vaa.emitter_chain != emitter.chain || !bytes_equal(
        &vaa.emitter_address,
        &emitter.address,
    ) {
        return Err(VerifyError::ForeignEmitter);
    }
    let set = match guardian_sets.get(&vaa.guardian_set_index) {
        Some(set) => set,
        None => {
            return Err(VerifyError::UnknownGuardianSet);
        },
    };
    let digest = match wormhole_body_digest(&vaa) {
        Some(digest) => digest,
        None => {
            return Err(VerifyError::NoDigest);
        },
    };
    let count = count_attesting(&vaa.signatures, &digest, set);
    if count < quorum(set.keys.len()) {
        return Err(VerifyError::NoQuorum);
    }
    Ok(vaa)
}

} // verus!
