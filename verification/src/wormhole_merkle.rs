//! Merkle proofs for the messages of a slot, and the update data that carries
//! them to a remote verifier.

use byteorder::BigEndian;
use crate::order::is_least;
use crate::order::set_pop_first;
use crate::storage::MessageState;
use crate::types::AccumulatorMessages;
use crate::types::bytes_equal;
use crate::types::copy_bytes;
use crate::types::IntegrityFault;
use crate::types::Slot;
use crate::types::StoreError;
use crate::wormhole::spec_parse_vaa;
use pythnet_sdk::accumulators::Accumulator;
use pythnet_sdk::accumulators::merkle::MerklePath;
use pythnet_sdk::accumulators::merkle::MerkleRoot;
use pythnet_sdk::accumulators::merkle::MerkleTree;
use pythnet_sdk::hashers::keccak256_160::Keccak160;
use pythnet_sdk::wire::v1::AccumulatorUpdateData;
use pythnet_sdk::wire::v1::MerklePriceUpdate;
use pythnet_sdk::wire::v1::Proof;
use pythnet_sdk::wire::v1::WormholeMessage;
use pythnet_sdk::wire::v1::WormholePayload;
use std::collections::BTreeSet;
use vstd::prelude::*;

verus! {

broadcast use vstd::std_specs::btree::group_btree_axioms, vstd::laws_cmp::group_laws_cmp;

/// The Merkle root that an attestation commits to for a slot.
#[derive(Clone, Copy, Debug, PartialEq, Eq)]
pub struct WormholeMerkleRoot {
    pub slot: Slot,
    pub ring_size: u32,
    pub root: [u8; 20],
}

/// The attested root of a slot with the bytes of the attestation, kept as they
/// came so that they can be handed out again.
#[derive(Clone, Debug, PartialEq, Eq)]
pub struct WormholeMerkleState {
    pub root: WormholeMerkleRoot,
    pub vaa: Vec<u8>,
}

/// The proof that a message belongs to an attested batch: the attestation and
/// the path of sibling hashes from the message to the root.
#[derive(Clone, Debug, PartialEq, Eq)]
pub struct WormholeMerkleMessageProof {
    pub vaa: Vec<u8>,
    pub proof: Vec<[u8; 20]>,
}

/// A Merkle tree over the raw messages of one batch: a
/// `pythnet_sdk::accumulators::merkle::MerkleTree` with the hasher `Keccak160`.
/// The tree is generic over a trait of its crate, so it cannot be declared to
/// the verifier as it is; it is held here unseen, and all that is known of it
/// is what `merkle_tree_build`, `merkle_tree_root` and `merkle_tree_prove`
/// state.
#[verifier::external_body]
pub struct MessageTree {
    tree: MerkleTree<Keccak160>,
}

/// The items that a tree was built from, in their order.
pub uninterp spec fn merkle_leaves(tree: MessageTree) -> Seq<Seq<u8>>;

/// The root of the tree over `leaves`.
pub uninterp spec fn spec_merkle_root(leaves: Seq<Seq<u8>>) -> [u8; 20];

/// The path from `item` to the root of the tree over `leaves`, or `None` where
/// the tree holds no such item.
pub uninterp spec fn spec_merkle_path(leaves: Seq<Seq<u8>>, item: Seq<u8>) -> Option<Seq<[u8; 20]>>;

/// Whether hashing `item` up along `path` arrives at `root`.
pub uninterp spec fn spec_merkle_check(root: Seq<u8>, path: Seq<[u8; 20]>, item: Seq<u8>) -> bool;

/// What the wire format makes of the payload of an attestation: the Merkle root
/// that it carries, or `None` where it carries none.
pub uninterp spec fn spec_decode_merkle_root(payload: Seq<u8>) -> Option<WormholeMerkleRoot>;

/// The update data that holds the attestation `vaa` and the messages of
/// `updates`, each with its path, or `None` where they do not fit the wire
/// format.
pub uninterp spec fn spec_update_data(vaa: Seq<u8>, updates: Seq<(Seq<u8>, Seq<[u8; 20]>)>) -> Option<
    Seq<u8>,
>;

/// `MerkleTree::<Keccak160>::from_set`: the tree over the given items, or
/// `None` where there are no items.
#[verifier::external_body]
pub(crate) fn merkle_tree_build(items: &Vec<Vec<u8>>) -> (tree: Option<MessageTree>)
    ensures
        tree is Some <==> items@.len() > 0,
        tree matches Some(t) ==> merkle_leaves(t) == items.deep_view(),
{
    let tree = MerkleTree::<Keccak160>::from_set(items.iter().map(|item| item.as_slice()))?;
    Some(MessageTree { tree })
}

/// The field `root` of a `MerkleTree`, through `MerkleRoot::as_bytes`: the
/// root hash of the tree.
#[verifier::external_body]
pub(crate) fn merkle_tree_root(tree: &MessageTree) -> (root: [u8; 20])
    ensures
        root == spec_merkle_root(merkle_leaves(*tree)),
{
    let mut root = [0u8; 20];
    root.copy_from_slice(tree.tree.root.as_bytes());
    root
}

/// `MerkleTree::prove`: the path of sibling hashes from the first leaf that
/// holds `item` up to the root, or `None` where no leaf holds it.
#[verifier::external_body]
pub(crate) fn merkle_tree_prove(tree: &MessageTree, item: &[u8]) -> (path: Option<Vec<[u8; 20]>>)
    ensures
        match path {
            Some(p) => spec_merkle_path(merkle_leaves(*tree), item@) == Some(p@),
            None => spec_merkle_path(merkle_leaves(*tree), item@) is None,
        },
{
    tree.tree.prove(item).map(|path| path.to_vec())
}

/// `MerkleRoot::<Keccak160>::check`: whether the hash of `item` as a leaf,
/// combined in turn with each hash of `path`, gives `root`.
#[verifier::external_body]
pub(crate) fn merkle_root_check(root: &[u8; 20], path: &Vec<[u8; 20]>, item: &[u8]) -> (valid: bool)
    ensures
        valid == spec_merkle_check(root@, path@, item@),
{
    MerkleRoot::<Keccak160>::new(*root).check(MerklePath::new(path.clone()), item)
}

/// `WormholeMessage::try_from_bytes`: the Merkle root in the payload of an
/// attestation, or `None` where the payload does not decode or has another
/// magic.
#[verifier::external_body]
pub(crate) fn wire_decode_merkle_root(payload: &[u8]) -> (root: Option<WormholeMerkleRoot>)
    ensures
        root == spec_decode_merkle_root(payload@),
{
    match WormholeMessage::try_from_bytes(payload).ok()?.payload {
        WormholePayload::Merkle(r) => {
            Some(WormholeMerkleRoot { slot: r.slot, ring_size: r.ring_size, root: r.root })
        },
    }
}

/// `pythnet_sdk::wire::to_vec`, at big-endian byte order, on the
/// `AccumulatorUpdateData` for a Merkle proof with the attestation `vaa` and
/// one update for each of `states`: its raw message and its path. `None`
/// where serialising fails. The attestation and the raw messages go into
/// vectors with a length prefix of 16 bits, whose serialising panics on a
/// length that the prefix cannot hold: such lengths are ruled out.
#[verifier::external_body]
pub(crate) fn wire_encode_update_data(vaa: &Vec<u8>, states: &Vec<&MessageState>) -> (data: Option<
    Vec<u8>,
>)
    requires
        fits_prefix(vaa@, updates_of(states_of(states@))),
    ensures
        match data {
            Some(d) => spec_update_data(vaa@, updates_of(states_of(states@))) == Some(d@),
            None => spec_update_data(vaa@, updates_of(states_of(states@))) is None,
        },
{
    let updates = states.iter().map(|s| MerklePriceUpdate {
        message: s.raw_message.clone().into(),
        proof: MerklePath::new(s.proof_set.wormhole_merkle_proof.proof.clone()),
    }).collect();
    let proof = Proof::WormholeMerkle { vaa: vaa.clone().into(), updates };
    pythnet_sdk::wire::to_vec::<_, BigEndian>(&AccumulatorUpdateData::new(proof)).ok()
}

/// The states that a selection refers to.
pub open spec fn states_of(selection: Seq<&MessageState>) -> Seq<MessageState> {
    Seq::new(selection.len(), |i: int| *selection[i])
}

/// The raw message and the path of each of `states`, as they go into update
/// data.
pub open spec fn updates_of(states: Seq<MessageState>) -> Seq<(Seq<u8>, Seq<[u8; 20]>)> {
    Seq::new(
        states.len(),
        |i: int| (states[i].raw_message@, states[i].proof_set.wormhole_merkle_proof.proof@),
    )
}

/// The greatest length that a length prefix of 16 bits can hold.
pub const MAX_PREFIXED_LEN: usize = 65535;

/// Whether the attestation and every raw message are short enough for their
/// length prefixes.
pub open spec fn fits_prefix(vaa: Seq<u8>, updates: Seq<(Seq<u8>, Seq<[u8; 20]>)>) -> bool {
    &&& vaa.len() <= MAX_PREFIXED_LEN
    &&& forall|i: int| 0 <= i < updates.len() ==> (#[trigger] updates[i]).0.len() <= MAX_PREFIXED_LEN
}

/// The update data that holds the attestation `vaa` and the messages of
/// `updates`, each with its path; `None` where the attestation or a message is
/// too long for its length prefix, or they do not fit the wire format
/// otherwise.
pub open spec fn spec_packed(vaa: Seq<u8>, updates: Seq<(Seq<u8>, Seq<[u8; 20]>)>) -> Option<
    Seq<u8>,
> {
    if fits_prefix(vaa, updates) {
        spec_update_data(vaa, updates)
    } else {
        None
    }
}

/// The root that the bytes of an attestation commit to.
pub open spec fn committed_root(vaa: Seq<u8>) -> Option<WormholeMerkleRoot> {
    match spec_parse_vaa(vaa) {
        Some(parsed) => spec_decode_merkle_root(parsed.payload@),
        None => None,
    }
}

/// The proof for leaf `i` of `leaves` under `root`: the path from the leaf to
/// the root of the tree, where there is one and it leads to `root`.
pub open spec fn spec_proof(leaves: Seq<Seq<u8>>, root: [u8; 20], i: int) -> Option<Seq<[u8; 20]>> {
    match spec_merkle_path(leaves, leaves[i]) {
        Some(path) => if spec_merkle_check(root@, path, leaves[i]) {
            Some(path)
        } else {
            None
        },
        None => None,
    }
}

/// What the proofs of a batch must be: none for an empty batch, and else,
/// where the tree over the batch has the attested root, one for each message,
/// with the attestation and the path of the message.
pub open spec fn spec_message_proofs(
    messages: Seq<Seq<u8>>,
    state: WormholeMerkleState,
) -> Result<Seq<(Seq<u8>, Seq<[u8; 20]>)>, StoreError> {
    if messages.len() == 0 {
        Ok(Seq::empty())
    } else if spec_merkle_root(messages) != state.root.root {
        Err(StoreError::Integrity(IntegrityFault::RootMismatch))
    } else if exists|i: int| 0 <= i < messages.len() && spec_proof(messages, state.root.root, i) is None {
        Err(StoreError::Integrity(IntegrityFault::MissingProof))
    } else {
        Ok(Seq::new(messages.len(), |i: int| (state.vaa@, spec_proof(messages, state.root.root, i)->0)))
    }
}

/// The attestation and the path of each proof.
pub open spec fn proofs_view(proofs: Seq<WormholeMerkleMessageProof>) -> Seq<(Seq<u8>, Seq<[u8; 20]>)> {
    Seq::new(proofs.len(), |i: int| (proofs[i].vaa@, proofs[i].proof@))
}

/// Decodes the payload of an attestation of the accumulator.
pub fn decode_merkle_root(payload: &Vec<u8>) -> (root: Option<WormholeMerkleRoot>)
    ensures
        root == spec_decode_merkle_root(payload@),
{
    wire_decode_merkle_root(payload.as_slice())
}

/// Whether `path` proves that `item` lies under `root`.
pub fn verify_proof(root: &[u8; 20], path: &Vec<[u8; 20]>, item: &Vec<u8>) -> (valid: bool)
    ensures
        valid == spec_merkle_check(root@, path@, item@),
{
    merkle_root_check(root, path, item.as_slice())
}

/// Builds the tree over the messages of a batch, holds its root against the
/// attested one, and makes the proof of each message. Every proof that is
/// returned has been checked against the attested root.
pub fn construct_message_states_proofs(
    accumulator_messages: &AccumulatorMessages,
    wormhole_merkle_state: &WormholeMerkleState,
) -> (proofs: Result<Vec<WormholeMerkleMessageProof>, StoreError>)
    ensures
        match proofs {
            Ok(p) => spec_message_proofs(
                accumulator_messages.raw_messages.deep_view(),
                *wormhole_merkle_state,
            ) == Ok::<_, StoreError>(proofs_view(p@)),
            Err(e) => spec_message_proofs(
                accumulator_messages.raw_messages.deep_view(),
                *wormhole_merkle_state,
            ) == Err::<Seq<(Seq<u8>, Seq<[u8; 20]>)>, _>(e),
        },
        proofs matches Ok(p) ==> forall|i: int|
            0 <= i < p@.len() ==> spec_merkle_check(
                wormhole_merkle_state.root.root@,
                #[trigger] p@[i].proof@,
                accumulator_messages.raw_messages@[i]@,
            ),
{
    let messages = &accumulator_messages.raw_messages;
    let ghost leaves = messages.deep_view();
    let ghost root = wormhole_merkle_state.root.root;
    let tree = match merkle_tree_build(messages) {
        Some(tree) => tree,
        None => {
            let none: Vec<WormholeMerkleMessageProof> = Vec::new();
            assert(proofs_view(none@) =~= Seq::empty());
            return Ok(none);
        },
    };
    let computed = merkle_tree_root(&tree);
    if !bytes_equal(&computed, &wormhole_merkle_state.root.root) {
        return Err(StoreError::Integrity(IntegrityFault::RootMismatch));
    }
    let mut proofs: Vec<WormholeMerkleMessageProof> = Vec::with_capacity(messages.len());
    let mut i: usize = 0;
    while i < messages.len()
        invariant
            i <= messages.len(),
            *messages == accumulator_messages.raw_messages,
            leaves == messages.deep_view(),
            leaves == merkle_leaves(tree),
            leaves.len() == messages@.len(),
            leaves.len() > 0,
            root == wormhole_merkle_state.root.root,
            spec_merkle_root(leaves) == root,
            proofs@.len() == i,
            forall|k: int|
                0 <= k < i ==> {
                    &&& spec_proof(leaves, root, k) == Some((#[trigger] proofs@[k]).proof@)
                    &&& proofs@[k].vaa@ == wormhole_merkle_state.vaa@
                },
        decreases messages.len() - i,
    {
        assert(leaves[i as int] == messages@[i as int]@);
        let path = match merkle_tree_prove(&tree, messages[i].as_slice()) {
            Some(path) => path,
            None => {
                assert(spec_proof(leaves, root, i as int) is None);
                return Err(StoreError::Integrity(IntegrityFault::MissingProof));
            },
        };
        if !merkle_root_check(&wormhole_merkle_state.root.root, &path, messages[i].as_slice()) {
            assert(spec_proof(leaves, root, i as int) is None);
            return Err(StoreError::Integrity(IntegrityFault::MissingProof));
        }
        proofs.push(
            WormholeMerkleMessageProof { vaa: copy_bytes(&wormhole_merkle_state.vaa), proof: path },
        );
        i += 1;
    }
    proof {
        let expected = Seq::new(
            leaves.len(),
            |k: int| (wormhole_merkle_state.vaa@, spec_proof(leaves, root, k)->0),
        );
        assert forall|k: int| 0 <= k < leaves.len() implies spec_proof(leaves, root, k) is Some by {
            assert(spec_proof(leaves, root, k) == Some(proofs@[k].proof@));
        }
        assert(proofs_view(proofs@) =~= expected);
        assert(spec_message_proofs(leaves, *wormhole_merkle_state) == Ok::<_, StoreError>(expected));
        assert forall|k: int| 0 <= k < proofs@.len() implies spec_merkle_check(
            root@,
            #[trigger] proofs@[k].proof@,
            messages@[k]@,
        ) by {
            assert(spec_proof(leaves, root, k) == Some(proofs@[k].proof@));
            assert(leaves[k] == messages@[k]@);
        }
    }
    Ok(proofs)
}

/// The slots that occur among `states`.
pub open spec fn slots_of(states: Seq<MessageState>) -> Set<Slot> {
    Set::new(|slot: Slot| exists|i: int| 0 <= i < states.len() && states[i].slot == slot)
}

/// Those of the first `n` of `states` that belong to `slot`, in their order.
pub open spec fn group(states: Seq<MessageState>, slot: Slot, n: nat) -> Seq<MessageState>
    decreases n,
{
    if n == 0 {
        Seq::empty()
    } else if states[n - 1].slot == slot {
        group(states, slot, (n - 1) as nat).push(states[n - 1])
    } else {
        group(states, slot, (n - 1) as nat)
    }
}

/// The update data for `slot`: the attestation that the first state of the
/// slot carries, and all the states of the slot in their order.
pub open spec fn spec_slot_update_data(states: Seq<MessageState>, slot: Slot) -> Option<Seq<u8>> {
    let members = group(states, slot, states.len());
    spec_packed(members[0].proof_set.wormhole_merkle_proof.vaa@, updates_of(members))
}

/// Whether each slot of `slots` is smaller than the next.
pub open spec fn ascending(slots: Seq<Slot>) -> bool {
    forall|i: int, j: int| 0 <= i < j < slots.len() ==> slots[i] < slots[j]
}

/// Whether `blobs` holds the update data of `states` for the slots `slots`:
/// these are the slots of `states` in ascending order, and each blob is the
/// update data of the slot at its place.
pub open spec fn packs(states: Seq<MessageState>, slots: Seq<Slot>, blobs: Seq<Seq<u8>>) -> bool {
    &&& ascending(slots)
    &&& slots.to_set() == slots_of(states)
    &&& blobs.len() == slots.len()
    &&& forall|i: int|
        0 <= i < slots.len() ==> spec_slot_update_data(states, #[trigger] slots[i]) == Some(
            blobs[i],
        )
}

/// Whether `blobs` is the update data of `states`: one blob for each slot that
/// occurs among them, by ascending slot.
pub open spec fn is_update_data(states: Seq<MessageState>, blobs: Seq<Seq<u8>>) -> bool {
    exists|slots: Seq<Slot>| packs(states, slots, blobs)
}

/// A slot that occurs among the states has a group that is not empty.
pub proof fn lemma_group_of_member(states: Seq<MessageState>, slot: Slot, n: nat, i: int)
    requires
        0 <= i < n <= states.len(),
        states[i].slot == slot,
    ensures
        group(states, slot, n).len() > 0,
    decreases n,
{
    if i < n - 1 {
        lemma_group_of_member(states, slot, (n - 1) as nat, i);
    }
}

/// Packs `states` with the attestation `vaa` into one blob of update data.
fn pack(vaa: &Vec<u8>, states: &Vec<&MessageState>) -> (data: Option<Vec<u8>>)
    ensures
        match data {
            Some(blob) => spec_packed(vaa@, updates_of(states_of(states@))) == Some(blob@),
            None => spec_packed(vaa@, updates_of(states_of(states@))) is None,
        },
{
    if vaa.len() > MAX_PREFIXED_LEN {
        return None;
    }
    let ghost updates = updates_of(states_of(states@));
    let mut i: usize = 0;
    while i < states.len()
        invariant
            i <= states.len(),
            updates == updates_of(states_of(states@)),
            forall|k: int| 0 <= k < i ==> (#[trigger] updates[k]).0.len() <= MAX_PREFIXED_LEN,
        decreases states.len() - i,
    {
        assert(updates[i as int].0 == states@[i as int].raw_message@);
        if states[i].raw_message.len() > MAX_PREFIXED_LEN {
            return None;
        }
        i += 1;
    }
    wire_encode_update_data(vaa, states)
}

/// The slots of `states`, as a set.
fn collect_slots(states: &Vec<&MessageState>) -> (slots: BTreeSet<Slot>)
    ensures
        slots@ == slots_of(states_of(states@)),
        slots@.finite(),
{
    let mut slots: BTreeSet<Slot> = BTreeSet::new();
    let mut i: usize = 0;
    while i < states.len()
        invariant
            i <= states.len(),
            slots@.finite(),
            forall|slot: Slot|
                slots@.contains(slot) <==> exists|k: int| 0 <= k < i && states@[k].slot == slot,
        decreases states.len() - i,
    {
        let ghost before = slots@;
        slots.insert(states[i].slot);
        assert forall|slot: Slot| slots@.contains(slot) <==> exists|k: int|
            0 <= k < i + 1 && states@[k].slot == slot by {
            if slots@.contains(slot) {
                if before.contains(slot) {
                    let k = choose|k: int| 0 <= k < i && states@[k].slot == slot;
                    assert(0 <= k < i + 1 && states@[k].slot == slot);
                } else {
                    assert(states@[i as int].slot == slot);
                }
            }
            if exists|k: int| 0 <= k < i + 1 && states@[k].slot == slot {
                let k = choose|k: int| 0 <= k < i + 1 && states@[k].slot == slot;
                if k < i {
                    assert(before.contains(slot));
                }
            }
        }
        i += 1;
    }
    assert forall|slot: Slot| slots@.contains(slot) <==> slots_of(states_of(states@)).contains(
        slot,
    ) by {
        if slots@.contains(slot) {
            let k = choose|k: int| 0 <= k < states@.len() && states@[k].slot == slot;
            assert(states_of(states@)[k].slot == slot);
        }
        if slots_of(states_of(states@)).contains(slot) {
            let k = choose|k: int|
                0 <= k < states_of(states@).len() && states_of(states@)[k].slot == slot;
            assert(states@[k].slot == slot);
        }
    }
    assert(slots@ =~= slots_of(states_of(states@)));
    slots
}

/// The states of `slot` among `states`, in their order.
fn collect_group<'a>(states: &Vec<&'a MessageState>, slot: Slot) -> (members: Vec<&'a MessageState>)
    ensures
        states_of(members@) == group(states_of(states@), slot, states@.len()),
{
    let mut members: Vec<&MessageState> = Vec::new();
    let mut i: usize = 0;
    while i < states.len()
        invariant
            i <= states.len(),
            states_of(members@) == group(states_of(states@), slot, i as nat),
        decreases states.len() - i,
    {
        let state = states[i];
        let ghost before = members@;
        assert(states_of(states@)[i as int] == *state);
        if state.slot == slot {
            members.push(state);
            assert(states_of(members@) =~= states_of(before).push(*state));
        }
        i += 1;
    }
    members
}

/// Packs a selection of message states into update data: one blob for each slot
/// that occurs in the selection, by ascending slot. The blob of a slot holds the
/// attestation that the first selected state of the slot carries, and the raw
/// message and the path of each selected state of the slot, in the order of the
/// selection. Fails where the states of some slot do not fit the wire format.
pub fn construct_update_data(message_states: Vec<&MessageState>) -> (data: Result<
    Vec<Vec<u8>>,
    StoreError,
>)
    ensures
        match data {
            Ok(blobs) => is_update_data(states_of(message_states@), blobs.deep_view()),
            Err(e) => e == StoreError::UpdateData && exists|slot: Slot|
                slots_of(states_of(message_states@)).contains(slot) && spec_slot_update_data(
                    states_of(message_states@),
                    slot,
                ) is None,
        },
{
    let ghost states = states_of(message_states@);
    let mut pending = collect_slots(&message_states);
    let mut blobs: Vec<Vec<u8>> = Vec::new();
    let ghost mut done: Seq<Slot> = Seq::empty();
    while pending.len() > 0
        invariant
            states == states_of(message_states@),
            pending@.finite(),
            ascending(done),
            forall|i: int, slot: Slot|
                0 <= i < done.len() && pending@.contains(slot) ==> done[i] < slot,
            forall|slot: Slot|
                #![trigger slots_of(states).contains(slot)]
                #![trigger done.contains(slot)]
                #![trigger pending@.contains(slot)]
                slots_of(states).contains(slot) <==> (done.contains(slot)
                    || pending@.contains(slot)),
            blobs@.len() == done.len(),
            forall|i: int|
                0 <= i < done.len() ==> spec_slot_update_data(states, #[trigger] done[i])
                    == Some(blobs@[i]@),
        decreases pending@.len(),
    {
        let ghost before = pending@;
        let slot = match set_pop_first(&mut pending) {
            Some(slot) => slot,
            None => {
                // The set is not empty.
                assert(false);
                return Err(StoreError::UpdateData);
            },
        };
        let members = collect_group(&message_states, slot);
        proof {
            assert(is_least(before, slot));
            assert(before.contains(slot));
            assert(slots_of(states).contains(slot));
            let i = choose|i: int| 0 <= i < states.len() && states[i].slot == slot;
            lemma_group_of_member(states, slot, states.len(), i);
            assert(states_of(members@).len() > 0);
            assert(*members@[0] == states_of(members@)[0]);
        }
        let blob = match pack(&members[0].proof_set.wormhole_merkle_proof.vaa, &members) {
            Some(blob) => blob,
            None => {
                return Err(StoreError::UpdateData);
            },
        };
        blobs.push(blob);
        proof {
            let ghost earlier = done;
            done = done.push(slot);
            assert forall|i: int, j: int| 0 <= i < j < done.len() implies done[i] < done[j] by {
                if j == earlier.len() {
                    assert(before.contains(slot));
                } else {
                    assert(earlier[i] < earlier[j]);
                }
            }
            assert forall|s: Slot| slots_of(states).contains(s) <==> (done.contains(s)
                || pending@.contains(s)) by {
                if earlier.contains(s) {
                    let i = choose|i: int| 0 <= i < earlier.len() && earlier[i] == s;
                    assert(done[i] == s);
                }
                if s == slot {
                    assert(done[earlier.len() as int] == s);
                }
                if done.contains(s) {
                    let i = choose|i: int| 0 <= i < done.len() && done[i] == s;
                    if i < earlier.len() {
                        assert(earlier[i] == s);
                    }
                }
            }
            assert forall|i: int, s: Slot| 0 <= i < done.len() && pending@.contains(s) implies done[i]
                < s by {
                if i < earlier.len() {
                    assert(before.contains(s));
                    assert(earlier[i] < s);
                }
            }
        }
    }
    proof {
        assert(done.to_set() =~= slots_of(states)) by {
            assert forall|s: Slot| done.to_set().contains(s) <==> slots_of(states).contains(s) by {
                assert(!pending@.contains(s));
            }
        }
        assert forall|i: int| 0 <= i < done.len() implies spec_slot_update_data(
            states,
            #[trigger] done[i],
        ) == Some(blobs.deep_view()[i]) by {
            assert(blobs.deep_view()[i] == blobs@[i]@);
        }
        assert(packs(states, done, blobs.deep_view()));
    }
    Ok(blobs)
}

/// Whether the proof of `state` holds under the root that the attestation
/// `vaa` commits to.
pub open spec fn proves_under(state: MessageState, vaa: Seq<u8>) -> bool {
    &&& committed_root(vaa) matches Some(root)
    &&& root.slot == state.slot
    &&& spec_merkle_check(
        root.root@,
        state.proof_set.wormhole_merkle_proof.proof@,
        state.raw_message@,
    )
}

/// The states of a slot, as they are grouped for its update data, are states of
/// the selection with that slot.
pub proof fn lemma_group_members(states: Seq<MessageState>, slot: Slot, n: nat, k: int)
    requires
        n <= states.len(),
        0 <= k < group(states, slot, n).len(),
    ensures
        group(states, slot, n)[k].slot == slot,
        exists|i: int| 0 <= i < n && states[i] == group(states, slot, n)[k],
    decreases n,
{
    if n > 0 {
        let rest = group(states, slot, (n - 1) as nat);
        if states[n - 1].slot == slot && k == rest.len() {
            assert(states[n - 1] == group(states, slot, n)[k]);
        } else {
            lemma_group_members(states, slot, (n - 1) as nat, k);
            let i = choose|i: int| 0 <= i < n - 1 && states[i] == rest[k];
            assert(0 <= i < n && states[i] == group(states, slot, n)[k]);
        }
    }
}

/// What update data carries can be verified again. Where every selected state
/// proves itself under the attestation that it carries, and the states of one
/// slot carry one attestation, the update data of each slot holds an
/// attestation that commits to a root for that slot, and every message in it
/// has a path that holds under that root.
pub proof fn lemma_update_data_verifies(states: Seq<MessageState>, slot: Slot, k: int)
    requires
        forall|i: int|
            0 <= i < states.len() ==> proves_under(
                #[trigger] states[i],
                states[i].proof_set.wormhole_merkle_proof.vaa@,
            ),
        forall|i: int, j: int|
            0 <= i < states.len() && 0 <= j < states.len() && states[i].slot == states[j].slot
                ==> states[i].proof_set.wormhole_merkle_proof.vaa@
                == states[j].proof_set.wormhole_merkle_proof.vaa@,
        0 <= k < group(states, slot, states.len()).len(),
    ensures
        ({
            let members = group(states, slot, states.len());
            let vaa = members[0].proof_set.wormhole_merkle_proof.vaa@;
            &&& spec_slot_update_data(states, slot) == spec_packed(vaa, updates_of(members))
            &&& committed_root(vaa) matches Some(root)
            &&& root.slot == slot
            &&& spec_merkle_check(root.root@, updates_of(members)[k].1, updates_of(members)[k].0)
        }),
{
    let members = group(states, slot, states.len());
    lemma_group_members(states, slot, states.len(), 0);
    lemma_group_members(states, slot, states.len(), k);
    let first = choose|i: int| 0 <= i < states.len() && states[i] == members[0];
    let at = choose|i: int| 0 <= i < states.len() && states[i] == members[k];
    assert(proves_under(states[at], states[at].proof_set.wormhole_merkle_proof.vaa@));
    assert(states[first].proof_set.wormhole_merkle_proof.vaa@
        == states[at].proof_set.wormhole_merkle_proof.vaa@);
}

/// States that all belong to `slot` make one group, as they are.
pub proof fn lemma_group_of_one_slot(states: Seq<MessageState>, slot: Slot, n: nat)
    requires
        n <= states.len(),
        forall|i: int| 0 <= i < states.len() ==> (#[trigger] states[i]).slot == slot,
    ensures
        group(states, slot, n) == states.subrange(0, n as int),
    decreases n,
{
    if n == 0 {
        assert(group(states, slot, 0) =~= states.subrange(0, 0));
    } else {
        lemma_group_of_one_slot(states, slot, (n - 1) as nat);
        assert(states[n - 1].slot == slot);
        assert(group(states, slot, n) =~= states.subrange(0, n as int));
    }
}

/// The update data that holds `state` alone.
pub open spec fn spec_single_update_data(state: MessageState) -> Option<Seq<u8>> {
    spec_packed(
        state.proof_set.wormhole_merkle_proof.vaa@,
        seq![(state.raw_message@, state.proof_set.wormhole_merkle_proof.proof@)],
    )
}

/// Packs one message state into update data of its own.
pub fn construct_single_update_data(state: &MessageState) -> (data: Result<Vec<u8>, StoreError>)
    ensures
        match data {
            Ok(blob) => spec_single_update_data(*state) == Some(blob@),
            Err(e) => e == StoreError::UpdateData && spec_single_update_data(*state) is None,
        },
{
    let mut selection: Vec<&MessageState> = Vec::new();
    selection.push(state);
    let ghost one = states_of(selection@);
    let packed = construct_update_data(selection);
    proof {
        assert(one =~= seq![*state]);
        assert(group(one, state.slot, 1) =~= seq![*state]) by {
            assert(group(one, state.slot, 0) =~= Seq::<MessageState>::empty());
        }
        assert(updates_of(seq![*state]) =~= seq![
            (state.raw_message@, state.proof_set.wormhole_merkle_proof.proof@),
        ]);
        assert(spec_slot_update_data(one, state.slot) == spec_single_update_data(*state));
        assert forall|slot: Slot| slots_of(one).contains(slot) implies slot == state.slot by {
            let i = choose|i: int| 0 <= i < one.len() && one[i].slot == slot;
        }
    }
    match packed {
        Ok(mut blobs) => {
            proof {
                let slots = choose|slots: Seq<Slot>| packs(one, slots, blobs.deep_view());
                assert(slots_of(one).contains(state.slot)) by {
                    assert(one[0].slot == state.slot);
                }
                assert(slots.to_set().contains(state.slot));
                assert(slots.len() == 1) by {
                    if slots.len() > 1 {
                        assert(slots.to_set().contains(slots[0]));
                        assert(slots.to_set().contains(slots[1]));
                        assert(slots[0] < slots[1]);
                    }
                }
                assert(slots.to_set().contains(slots[0]));
                assert(blobs.deep_view()[0] == blobs@[0]@);
            }
            match blobs.pop() {
                Some(blob) => Ok(blob),
                None => Err(StoreError::UpdateData),
            }
        },
        Err(e) => Err(e),
    }
}

} // verus!
